use crate::constants::DEFAULT_FIELD_SIZE;
use crate::finite_field::{default_field, residue, FiniteField, FiniteFieldElement};
use crate::polynomial::algebra::{
    degree_of, eval_at, lemma_trimmed_len_bound, lemma_trimmed_len_is, terms_of, trimmed,
    trimmed_len, values_of,
};
use crate::polynomial::laws::lemma_trim_evaluates;
use vstd::prelude::*;

verus! {

/// A polynomial as its coefficients, constant term first.
#[derive(Debug, Clone)]
pub struct Polynomial {
    pub coefficients: Vec<FiniteFieldElement>,
}

impl Polynomial {
    /// The field of the coefficients; the default field for the empty polynomial.
    pub open spec fn field(&self) -> FiniteField {
        if self.coefficients@.len() > 0 {
            self.coefficients@[0].field
        } else {
            default_field()
        }
    }

    /// All coefficients are canonical elements of one field.
    pub open spec fn wf(&self) -> bool {
        &&& self.field().wf()
        &&& forall|i: int|
            0 <= i < self.coefficients@.len() ==> (#[trigger] self.coefficients@[i]).wf()
                && self.coefficients@[i].field == self.field()
    }

    /// The coefficient values, constant term first.
    pub open spec fn values(&self) -> Seq<int> {
        values_of(self.coefficients@)
    }

    /// Two polynomials can be combined when they share a field or one is empty.
    pub open spec fn compatible(&self, other: &Polynomial) -> bool {
        self.coefficients@.len() == 0 || other.coefficients@.len() == 0 || self.field()
            == other.field()
    }

    /// The field of a combination of two compatible polynomials.
    pub open spec fn joint_field(&self, other: &Polynomial) -> FiniteField {
        if self.coefficients@.len() > 0 {
            self.field()
        } else {
            other.field()
        }
    }

    /// Maps integer coefficients into the default field.
    pub fn new(coefficients: Vec<i128>) -> (result: Self)
        ensures
            result.coefficients@ == Seq::new(
                coefficients@.len(),
                |i: int| residue(coefficients@[i] as int, default_field()),
            ),
            result.wf(),
    {
        let field = FiniteField { prime: DEFAULT_FIELD_SIZE };
        let mut out: Vec<FiniteFieldElement> = Vec::new();
        let mut i: usize = 0;
        while i < coefficients.len()
            invariant
                i <= coefficients@.len(),
                field == default_field(),
                out@.len() == i,
                forall|k: int| 0 <= k < i ==> out@[k] == residue(coefficients@[k] as int, field),
            decreases coefficients@.len() - i,
        {
            out.push(FiniteFieldElement::new_fielded(coefficients[i], field));
            i = i + 1;
        }
        assert(out@ =~= Seq::new(
            coefficients@.len(),
            |i: int| residue(coefficients@[i] as int, default_field()),
        ));
        Polynomial { coefficients: out }
    }

    /// Takes field elements as the coefficients.
    pub fn new_ff(coefficients: Vec<FiniteFieldElement>) -> (result: Self)
        ensures
            result.coefficients == coefficients,
    {
        Polynomial { coefficients }
    }

    /// The field of the coefficients.
    pub fn coefficient_field(&self) -> (result: FiniteField)
        ensures
            result == self.field(),
    {
        if self.coefficients.len() > 0 {
            self.coefficients[0].field
        } else {
            FiniteField { prime: DEFAULT_FIELD_SIZE }
        }
    }

    /// The number of coefficients that are left once trailing zeros are dropped.
    pub fn significant_len(&self) -> (result: usize)
        ensures
            result == trimmed_len(self.values()),
            result <= self.coefficients@.len(),
    {
        let mut n: usize = self.coefficients.len();
        proof {
            lemma_trimmed_len_bound(self.values());
        }
        while n > 0 && self.coefficients[n - 1].is_zero()
            invariant
                n <= self.coefficients@.len(),
                forall|i: int| n <= i < self.coefficients@.len() ==> self.values()[i] == 0,
            decreases n,
        {
            n = n - 1;
        }
        proof {
            lemma_trimmed_len_is(self.values(), n as nat);
        }
        n
    }

    /// The greatest index of a non-zero coefficient, and 0 for the zero polynomial.
    pub fn degree(&self) -> (result: usize)
        ensures
            result == degree_of(self.values()),
    {
        let n = self.significant_len();
        if n == 0 {
            0
        } else {
            n - 1
        }
    }

    /// The polynomial with every coefficient but the last stored one set to zero.
    pub fn leading_term(&self) -> (result: Polynomial)
        requires
            self.wf(),
            self.coefficients@.len() > 0,
        ensures
            result.wf(),
            result.coefficients@.len() == self.coefficients@.len(),
            result.coefficients@.last() == self.coefficients@.last(),
            forall|i: int|
                0 <= i < self.coefficients@.len() - 1 ==> #[trigger] result.coefficients@[i]
                    == residue(0, self.field()),
    {
        let top: usize = self.coefficients.len() - 1;
        let field = self.coefficients[0].field;
        let mut out: Vec<FiniteFieldElement> = Vec::new();
        while out.len() < top
            invariant
                top == self.coefficients@.len() - 1,
                field == self.field(),
                field.wf(),
                out@.len() <= top,
                forall|i: int| 0 <= i < out@.len() ==> out@[i] == residue(0, field),
            decreases top - out@.len(),
        {
            out.push(FiniteFieldElement::new_fielded(0, field));
        }
        out.push(self.coefficients[top]);
        Polynomial { coefficients: out }
    }

    /// Drops the trailing zero coefficients.
    pub fn trim(&self) -> (result: Polynomial)
        ensures
            result.coefficients@ == trimmed(self.coefficients@),
            self.wf() ==> result.wf(),
            forall|x: int|
                #![trigger eval_at(result.values(), x)]
                eval_at(result.values(), x) == eval_at(self.values(), x),
    {
        proof {
            lemma_trimmed_len_bound(self.values());
            assert(values_of(trimmed(self.coefficients@)) =~= self.values().take(
                trimmed_len(self.values()) as int,
            ));
            assert forall|x: int|
                eval_at(values_of(trimmed(self.coefficients@)), x) == eval_at(
                    self.values(),
                    x,
                ) by {
                lemma_trim_evaluates(self.values(), x);
            }
        }
        let n = self.significant_len();
        let mut out: Vec<FiniteFieldElement> = Vec::new();
        let mut i: usize = 0;
        while i < n
            invariant
                i <= n,
                n <= self.coefficients@.len(),
                out@ == self.coefficients@.take(i as int),
            decreases n - i,
        {
            out.push(self.coefficients[i]);
            assert(self.coefficients@.take(i as int).push(self.coefficients@[i as int])
                =~= self.coefficients@.take(i + 1));
            i = i + 1;
        }
        Polynomial { coefficients: out }
    }

    /// The coefficient values as plain integers.
    pub fn to_i128_coeffs(&self) -> (result: Vec<i128>)
        ensures
            result@.len() == self.coefficients@.len(),
            forall|i: int| 0 <= i < result@.len() ==> result@[i] == self.coefficients@[i].value,
    {
        let mut out: Vec<i128> = Vec::new();
        let mut i: usize = 0;
        while i < self.coefficients.len()
            invariant
                i <= self.coefficients@.len(),
                out@.len() == i,
                forall|k: int| 0 <= k < i ==> out@[k] == self.coefficients@[k].value,
            decreases self.coefficients@.len() - i,
        {
            out.push(self.coefficients[i].value);
            i = i + 1;
        }
        out
    }
    /// The non-zero terms as pairs of coefficient and exponent, the highest
    /// exponent first: what a reader sees when the polynomial is written out.
    pub fn terms(&self) -> (result: Vec<(i128, usize)>)
        ensures
            result@.len() == terms_of(self.values()).len(),
            forall|k: int|
                0 <= k < result@.len() ==> (#[trigger] result@[k]).0 == terms_of(self.values())[k].0
                    && result@[k].1 == terms_of(self.values())[k].1,
    {
        let ghost c = self.values();
        let mut out: Vec<(i128, usize)> = Vec::new();
        let mut i: usize = self.coefficients.len();
        assert(c.take(i as int) =~= c);
        while i > 0
            invariant
                c == self.values(),
                i <= self.coefficients@.len(),
                out@.len() + terms_of(c.take(i as int)).len() == terms_of(c).len(),
                forall|k: int|
                    0 <= k < out@.len() ==> (#[trigger] out@[k]).0 == terms_of(c)[k].0 && out@[k].1
                        == terms_of(c)[k].1,
                forall|k: int|
                    0 <= k < terms_of(c.take(i as int)).len() ==> terms_of(c.take(i as int))[k]
                        == terms_of(c)[out@.len() + k],
            decreases i,
        {
            let ghost here = c.take(i as int);
            i = i - 1;
            proof {
                assert(here.drop_last() =~= c.take(i as int));
                assert(here.last() == c[i as int]);
            }
            let value: i128 = self.coefficients[i].value;
            if value != 0 {
                out.push((value, i));
                proof {
                    let rest = terms_of(c.take(i as int));
                    assert(terms_of(here) == seq![(c[i as int], i as int)] + rest);
                    assert forall|k: int| 0 <= k < rest.len() implies rest[k] == terms_of(
                        c,
                    )[out@.len() + k] by {
                        assert(rest[k] == terms_of(here)[k + 1]);
                    }
                    assert(terms_of(here)[0] == (c[i as int], i as int));
                }
            }
        }
        proof {
            assert(c.take(0) =~= Seq::<int>::empty());
        }
        out
    }
}

} // verus!
