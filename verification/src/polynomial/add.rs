use crate::finite_field::FiniteFieldElement;
use crate::polynomial::algebra::{elements_of, poly_sum};
use crate::polynomial::polynomial::Polynomial;
use vstd::arithmetic::div_mod::lemma_small_mod;
use vstd::prelude::*;

verus! {

impl Polynomial {
    /// The sum of two polynomials: coefficients are paired by index and the
    /// shorter one is padded with zeros.
    pub fn add(&self, other: &Polynomial) -> (result: Polynomial)
        requires
            self.wf(),
            other.wf(),
            self.compatible(other),
        ensures
            result.coefficients@ == elements_of(
                poly_sum(self.values(), other.values()),
                self.joint_field(other),
            ),
            result.wf(),
    {
        let la: usize = self.coefficients.len();
        let lb: usize = other.coefficients.len();
        let n: usize = if la >= lb {
            la
        } else {
            lb
        };
        let ghost field = self.joint_field(other);
        let ghost target = elements_of(poly_sum(self.values(), other.values()), field);
        let mut out: Vec<FiniteFieldElement> = Vec::new();
        let mut i: usize = 0;
        while i < n
            invariant
                self.wf(),
                other.wf(),
                self.compatible(other),
                la == self.coefficients@.len(),
                lb == other.coefficients@.len(),
                n == target.len(),
                field == self.joint_field(other),
                target == elements_of(poly_sum(self.values(), other.values()), field),
                i <= n,
                out@.len() == i,
                forall|k: int| 0 <= k < i ==> out@[k] == target[k],
            decreases n - i,
        {
            let c = if i < la && i < lb {
                self.coefficients[i].add(other.coefficients[i])
            } else if i < la {
                proof {
                    lemma_small_mod(self.coefficients@[i as int].value as nat, field.prime as nat);
                }
                self.coefficients[i]
            } else {
                proof {
                    lemma_small_mod(other.coefficients@[i as int].value as nat, field.prime as nat);
                }
                other.coefficients[i]
            };
            out.push(c);
            i = i + 1;
        }
        assert(out@ =~= target);
        Polynomial { coefficients: out }
    }
}

} // verus!
