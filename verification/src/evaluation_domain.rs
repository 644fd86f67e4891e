use crate::finite_field::{residue, FiniteField, FiniteFieldElement};
use crate::polynomial::algebra::values_of;
use crate::number_theory::{is_prime, lemma_euclid};
use vstd::arithmetic::div_mod::{
    lemma_mod_multiples_vanish, lemma_mul_mod_noop_general, lemma_small_mod,
};
use vstd::prelude::*;

verus! {

/// An ordered list of field points at which polynomials are evaluated.
#[derive(Debug, Clone)]
pub struct EvaluationDomain {
    pub field: FiniteField,
    pub points: Vec<FiniteFieldElement>,
}

/// The value at `x` of the vanishing polynomial of the points `a`: the product
/// of all `x - a[i]`, over the integers.
pub open spec fn vanishing_value(a: Seq<int>, x: int) -> int
    decreases a.len(),
{
    if a.len() == 0 {
        1
    } else {
        vanishing_value(a.drop_last(), x) * (x - a.last())
    }
}

/// The points `0, 1, ..., n - 1` of `field`.
pub open spec fn linear_points(field: FiniteField, n: nat) -> Seq<FiniteFieldElement> {
    Seq::new(n, |i: int| residue(i, field))
}

/// The vanishing polynomial is zero at a point of the domain.
pub proof fn lemma_vanishing_at_point(a: Seq<int>, i: int, x: int, p: int)
    requires
        p > 0,
        0 <= i < a.len(),
        (x - a[i]) % p == 0,
    ensures
        vanishing_value(a, x) % p == 0,
    decreases a.len(),
{
    let front = vanishing_value(a.drop_last(), x);
    if i == a.len() - 1 {
        lemma_mul_mod_noop_general(front, x - a.last(), p);
        assert(front * 0 == 0);
    } else {
        lemma_vanishing_at_point(a.drop_last(), i, x, p);
        lemma_mul_mod_noop_general(front, x - a.last(), p);
        assert(0 * ((x - a.last()) % p) == 0);
    }
    lemma_small_mod(0, p as nat);
}

/// Over a prime field the vanishing polynomial is not zero away from the domain.
pub proof fn lemma_vanishing_off_domain(a: Seq<int>, x: int, p: int)
    requires
        is_prime(p),
        forall|i: int| 0 <= i < a.len() ==> (x - #[trigger] a[i]) % p != 0,
    ensures
        vanishing_value(a, x) % p != 0,
    decreases a.len(),
{
    if a.len() == 0 {
        lemma_small_mod(1, p as nat);
    } else {
        let front = a.drop_last();
        assert forall|i: int| 0 <= i < front.len() implies (x - #[trigger] front[i]) % p != 0 by {
            assert(front[i] == a[i]);
        }
        lemma_vanishing_off_domain(front, x, p);
        if vanishing_value(a, x) % p == 0 {
            lemma_euclid(p, vanishing_value(front, x), x - a.last());
            assert((x - a[a.len() - 1]) % p != 0);
        }
    }
}

/// The vanishing polynomial of a domain is zero at every point of the domain;
/// over a prime field it is zero nowhere else.
pub proof fn lemma_vanishing_roots(
    points: Seq<FiniteFieldElement>,
    field: FiniteField,
    x: FiniteFieldElement,
)
    requires
        field.wf(),
        x.wf(),
        x.field == field,
        forall|i: int| 0 <= i < points.len() ==> (#[trigger] points[i]).wf() && points[i].field
            == field,
    ensures
        points.contains(x) ==> residue(
            vanishing_value(values_of(points), x.value as int),
            field,
        ).value == 0,
        is_prime(field.prime as int) && residue(
            vanishing_value(values_of(points), x.value as int),
            field,
        ).value == 0 ==> points.contains(x),
{
    let p = field.prime as int;
    let a = values_of(points);
    if points.contains(x) {
        let i = choose|i: int| 0 <= i < points.len() && points[i] == x;
        lemma_small_mod(0, p as nat);
        lemma_vanishing_at_point(a, i, x.value as int, p);
    }
    if is_prime(p) && !points.contains(x) {
        assert forall|i: int| 0 <= i < a.len() implies (x.value - #[trigger] a[i]) % p != 0 by {
            assert(points[i].wf());
            assert(points[i] != x);
            let d = x.value - a[i];
            if d >= 0 {
                lemma_small_mod(d as nat, p as nat);
            } else {
                lemma_mod_multiples_vanish(1, d, p);
                lemma_small_mod((d + p) as nat, p as nat);
            }
        }
        lemma_vanishing_off_domain(a, x.value as int, p);
    }
}

impl EvaluationDomain {
    /// All points are canonical elements of the domain's field.
    pub open spec fn wf(&self) -> bool {
        &&& self.field.wf()
        &&& forall|i: int|
            0 <= i < self.points@.len() ==> (#[trigger] self.points@[i]).wf()
                && self.points@[i].field == self.field
    }

    /// The domain of the points `0, 1, ..., n - 1`.
    pub fn new_linear(field: FiniteField, n: usize) -> (result: Self)
        requires
            field.wf(),
            n > 0,
        ensures
            result.field == field,
            result.points@ == linear_points(field, n as nat),
            result.wf(),
    {
        let mut points: Vec<FiniteFieldElement> = Vec::new();
        let mut i: usize = 0;
        while i < n
            invariant
                field.wf(),
                i <= n,
                points@.len() == i,
                forall|k: int| 0 <= k < i ==> points@[k] == residue(k, field),
            decreases n - i,
        {
            points.push(FiniteFieldElement::new_fielded(i as i128, field));
            i = i + 1;
        }
        assert(points@ =~= linear_points(field, n as nat));
        EvaluationDomain { field, points }
    }

    /// The number of points.
    pub fn size(&self) -> (result: usize)
        ensures
            result == self.points@.len(),
    {
        self.points.len()
    }

    /// The `i`-th point.
    pub fn element(&self, i: usize) -> (result: FiniteFieldElement)
        requires
            i < self.points@.len(),
        ensures
            result == self.points@[i as int],
    {
        self.points[i]
    }

    /// The value at `x` of the vanishing polynomial of the domain, the product
    /// of `x - a` over all its points `a`.
    pub fn evaluate_vanishing(&self, x: FiniteFieldElement) -> (result: FiniteFieldElement)
        requires
            self.wf(),
            x.wf(),
            x.field == self.field,
        ensures
            result == residue(vanishing_value(values_of(self.points@), x.value as int), self.field),
            result.wf(),
            self.points@.contains(x) ==> result.value == 0,
            is_prime(self.field.prime as int) && result.value == 0 ==> self.points@.contains(x),
    {
        proof {
            lemma_vanishing_roots(self.points@, self.field, x);
        }
        let ghost p = self.field.prime as int;
        let ghost a = values_of(self.points@);
        let mut acc = FiniteFieldElement::new_fielded(1, self.field);
        let mut i: usize = 0;
        assert(a.take(0) =~= Seq::<int>::empty());
        while i < self.points.len()
            invariant
                self.wf(),
                x.wf(),
                x.field == self.field,
                p == self.field.prime,
                a == values_of(self.points@),
                i <= self.points@.len(),
                acc == residue(vanishing_value(a.take(i as int), x.value as int), self.field),
                acc.wf(),
            decreases self.points@.len() - i,
        {
            let diff = x.subtract(self.points[i]);
            proof {
                let before = vanishing_value(a.take(i as int), x.value as int);
                assert(a.take(i + 1).drop_last() =~= a.take(i as int));
                assert(a.take(i + 1).last() == a[i as int]);
                lemma_mul_mod_noop_general(before, x.value - a[i as int], p);
            }
            acc = acc.multiply(diff);
            i = i + 1;
        }
        assert(a.take(a.len() as int) =~= a);
        acc
    }
}

} // verus!
