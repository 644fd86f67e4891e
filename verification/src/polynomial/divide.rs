use crate::finite_field::{inverse_exponent, residue, FiniteFieldElement};
use crate::number_theory::is_prime;
use crate::polynomial::algebra::{
    coefficient, convolution, convolution_upto, degree_of, elements_of, is_zero_poly,
    lemma_elements_of_values, lemma_trimmed_len_bound, lemma_trimmed_len_is, poly_scaled,
    trimmed, trimmed_len, values_of,
};
use crate::polynomial::polynomial::Polynomial;
use vstd::arithmetic::div_mod::{
    lemma_mul_mod_noop_right, lemma_small_mod, lemma_sub_mod_noop, lemma_sub_mod_noop_right,
};
use vstd::arithmetic::power::pow;
use vstd::prelude::*;

verus! {

/// The working dividend after one step of long division: `digit` times the
/// divisor, shifted by `j` places, is subtracted from it.
pub open spec fn reduced_by(rem: Seq<int>, b: Seq<int>, j: int, db: int, digit: int, p: int) -> Seq<
    int,
> {
    Seq::new(
        rem.len(),
        |k: int|
            if j <= k <= j + db {
                (rem[k] - b[k - j] * digit) % p
            } else {
                rem[k]
            },
    )
}

/// Long division from the quotient digit `i - 1` down to the digit 0. Each
/// digit is the leading coefficient of the working dividend times `inv`, the
/// inverse of the divisor's leading coefficient; a leading coefficient that
/// is zero already gives the digit zero. The result is the quotient and what
/// is left of the dividend.
pub open spec fn long_division(
    rem: Seq<int>,
    quot: Seq<int>,
    b: Seq<int>,
    db: int,
    inv: int,
    i: nat,
    p: int,
) -> (Seq<int>, Seq<int>)
    decreases i,
{
    if i == 0 {
        (quot, rem)
    } else {
        let j = i - 1;
        let cur = db + j;
        if cur < rem.len() && rem[cur] != 0 {
            let digit = (rem[cur] * inv) % p;
            long_division(
                reduced_by(rem, b, j, db, digit, p),
                quot.update(j, digit),
                b,
                db,
                inv,
                j as nat,
                p,
            )
        } else {
            long_division(rem, quot, b, db, inv, j as nat, p)
        }
    }
}

/// The quotient and the untrimmed remainder of the long division of `a` by
/// `b` modulo `p`.
pub open spec fn divided(a: Seq<int>, b: Seq<int>, p: int) -> (Seq<int>, Seq<int>) {
    let digits = (degree_of(a) - degree_of(b) + 1) as nat;
    long_division(
        a,
        Seq::new(digits, |k: int| 0int),
        b,
        degree_of(b) as int,
        pow(b[degree_of(b) as int], inverse_exponent(p)) % p,
        digits,
        p,
    )
}

/// The identity `a = q * b + r` at the coefficient of `x^k`, modulo `p`.
pub open spec fn division_holds_at(
    a: Seq<int>,
    q: Seq<int>,
    b: Seq<int>,
    r: Seq<int>,
    k: int,
    p: int,
) -> bool {
    (coefficient(a, k) - convolution(q, b, k) - coefficient(r, k)) % p == 0
}

/// The identity `a = q * b + r` modulo `p`, coefficient by coefficient.
pub open spec fn division_holds(
    a: Seq<int>,
    q: Seq<int>,
    b: Seq<int>,
    r: Seq<int>,
    p: int,
) -> bool {
    forall|k: int| 0 <= k ==> #[trigger] division_holds_at(a, q, b, r, k, p)
}

/// A product with a polynomial whose first `n` coefficients are zero has no
/// contribution from them.
proof fn lemma_convolution_of_zeros(q: Seq<int>, b: Seq<int>, k: int, n: nat)
    requires
        n <= q.len(),
        forall|i: int| 0 <= i < n ==> q[i] == 0,
    ensures
        convolution_upto(q, b, k, n) == 0,
    decreases n,
{
    if n > 0 {
        lemma_convolution_of_zeros(q, b, k, (n - 1) as nat);
        assert(q[n - 1] * coefficient(b, k - (n - 1)) == 0) by (nonlinear_arith)
            requires
                q[n - 1] == 0,
        ;
    }
}

/// Setting one zero coefficient of `q` to `v` adds `v * b[k - i]` to the
/// coefficient of `x^k` in the product.
proof fn lemma_convolution_update(q: Seq<int>, b: Seq<int>, k: int, i: int, v: int, n: nat)
    requires
        0 <= i < q.len(),
        n <= q.len(),
        q[i] == 0,
    ensures
        convolution_upto(q.update(i, v), b, k, n) == convolution_upto(q, b, k, n) + (if i < n {
            v * coefficient(b, k - i)
        } else {
            0
        }),
    decreases n,
{
    if n > 0 {
        lemma_convolution_update(q, b, k, i, v, (n - 1) as nat);
        if n - 1 == i {
            assert(q[i] * coefficient(b, k - i) == 0) by (nonlinear_arith)
                requires
                    q[i] == 0,
            ;
        }
    }
}

/// Subtracting the lead times the quotient digit clears the leading coefficient.
proof fn lemma_lead_cancels(r0: int, lead: int, inv: int, p: int)
    requires
        p > 0,
        (lead * inv) % p == 1,
    ensures
        (r0 - lead * ((r0 * inv) % p)) % p == 0,
{
    lemma_mul_mod_noop_right(lead, r0 * inv, p);
    assert(lead * (r0 * inv) == r0 * (lead * inv)) by (nonlinear_arith);
    lemma_mul_mod_noop_right(r0, lead * inv, p);
    assert(r0 * 1 == r0) by (nonlinear_arith);
    lemma_sub_mod_noop(r0, lead * ((r0 * inv) % p), p);
    lemma_small_mod(0, p as nat);
}

/// One step of long division keeps the identity `a = q * b + r`.
proof fn lemma_division_step(
    a: Seq<int>,
    q0: Seq<int>,
    b: Seq<int>,
    r0: Seq<int>,
    r1: Seq<int>,
    i: int,
    v: int,
    db: int,
    p: int,
)
    requires
        p > 0,
        0 <= i < q0.len(),
        q0[i] == 0,
        0 <= db < b.len(),
        forall|t: int| db < t < b.len() ==> b[t] == 0,
        r1.len() == r0.len(),
        i + db < r0.len(),
        forall|k: int|
            0 <= k < r0.len() ==> #[trigger] r1[k] == (if i <= k < i + db + 1 {
                (r0[k] - b[k - i] * v) % p
            } else {
                r0[k]
            }),
        division_holds(a, q0, b, r0, p),
    ensures
        division_holds(a, q0.update(i, v), b, r1, p),
{
    let q1 = q0.update(i, v);
    assert forall|k: int| 0 <= k implies #[trigger] division_holds_at(a, q1, b, r1, k, p) by {
        assert(division_holds_at(a, q0, b, r0, k, p));
        lemma_convolution_update(q0, b, k, i, v, q0.len());
        let base = coefficient(a, k) - convolution(q0, b, k);
        if i <= k < i + db + 1 {
            assert(r1[k] == (r0[k] - b[k - i] * v) % p);
            assert(v * b[k - i] == b[k - i] * v) by (nonlinear_arith);
            lemma_sub_mod_noop_right(base - b[k - i] * v, r0[k] - b[k - i] * v, p);
        } else {
            assert(v * coefficient(b, k - i) == 0) by (nonlinear_arith)
                requires
                    coefficient(b, k - i) == 0,
            ;
            if k < r0.len() {
                assert(r1[k] == r0[k]);
            }
        }
    }
}

/// Dropping trailing zeros changes no coefficient and leaves nothing to drop.
pub proof fn lemma_trimmed_coefficients(s: Seq<FiniteFieldElement>)
    ensures
        trimmed(s).len() == trimmed_len(values_of(s)),
        trimmed_len(values_of(trimmed(s))) == trimmed(s).len(),
        forall|k: int|
            coefficient(values_of(trimmed(s)), k) == #[trigger] coefficient(values_of(s), k),
{
    let c = values_of(s);
    lemma_trimmed_len_bound(c);
    let n = trimmed_len(c);
    let t = values_of(trimmed(s));
    assert(t =~= c.take(n as int));
    lemma_trimmed_len_is(t, n);
}

impl Polynomial {
    /// Divides every coefficient by `scalar`, taken as an element of the
    /// polynomial's field.
    pub fn div_scalar(&self, scalar: i128) -> (result: Polynomial)
        requires
            self.wf(),
            scalar % self.field().prime != 0,
        ensures
            result.coefficients@ == elements_of(
                poly_scaled(
                    self.values(),
                    residue(scalar as int, self.field()).reciprocal().value as int,
                ),
                self.field(),
            ),
            result.wf(),
    {
        let field = self.coefficient_field();
        let inv = FiniteFieldElement::new_fielded(scalar, field).inverse();
        let ghost target = elements_of(poly_scaled(self.values(), inv.value as int), field);
        let mut out: Vec<FiniteFieldElement> = Vec::new();
        let mut i: usize = 0;
        while i < self.coefficients.len()
            invariant
                self.wf(),
                field == self.field(),
                inv.wf(),
                inv.field == field,
                target == elements_of(poly_scaled(self.values(), inv.value as int), field),
                i <= self.coefficients@.len(),
                out@.len() == i,
                forall|k: int| 0 <= k < i ==> out@[k] == target[k],
            decreases self.coefficients@.len() - i,
        {
            out.push(self.coefficients[i].multiply(inv));
            i = i + 1;
        }
        assert(out@ =~= target);
        Polynomial { coefficients: out }
    }

    /// Long division: the quotient and the remainder of `self` by `divisor`.
    /// The identity `self = quotient * divisor + remainder` holds coefficient
    /// by coefficient; over a prime field the remainder is shorter than the
    /// divisor's degree allows, so it is the zero polynomial when the
    /// division is exact.
    pub fn div(&self, divisor: &Polynomial) -> (result: (Polynomial, Polynomial))
        requires
            self.wf(),
            divisor.wf(),
            self.compatible(divisor),
            !is_zero_poly(divisor.values()),
            degree_of(self.values()) >= degree_of(divisor.values()),
        ensures
            result.0.coefficients@ == elements_of(
                divided(self.values(), divisor.values(), divisor.field().prime as int).0,
                divisor.field(),
            ),
            result.1.coefficients@ == trimmed(
                elements_of(
                    divided(self.values(), divisor.values(), divisor.field().prime as int).1,
                    divisor.field(),
                ),
            ),
            result.0.wf(),
            result.1.wf(),
            result.0.coefficients@.len() == degree_of(self.values()) - degree_of(divisor.values())
                + 1,
            result.0.field() == divisor.field(),
            result.1.coefficients@.len() > 0 ==> result.1.field() == divisor.field(),
            result.1.coefficients@.len() <= self.coefficients@.len(),
            trimmed_len(result.1.values()) == result.1.coefficients@.len(),
            division_holds(
                self.values(),
                result.0.values(),
                divisor.values(),
                result.1.values(),
                divisor.field().prime as int,
            ),
            is_prime(divisor.field().prime as int) ==> result.1.coefficients@.len() <= degree_of(
                divisor.values(),
            ),
    {
        let ghost a = self.values();
        let ghost b = divisor.values();
        proof {
            lemma_trimmed_len_bound(a);
            lemma_trimmed_len_bound(b);
        }
        let da: usize = self.degree();
        let db: usize = divisor.degree();
        let la: usize = self.coefficients.len();
        let field = divisor.coefficients[0].field;
        let ghost p = field.prime as int;
        let lead = divisor.coefficients[db];
        let lead_inv = lead.inverse();
        proof {
            if is_prime(p) {
                lemma_small_mod(1, p as nat);
            }
        }
        let qlen: usize = da - db + 1;
        let mut rem: Vec<FiniteFieldElement> = self.duplicate().coefficients;
        proof {
            assert forall|k: int| db + qlen <= k < la implies (#[trigger] rem@[k]).value == 0 by {
                assert(a[k] == 0);
            }
        }
        let mut quot: Vec<FiniteFieldElement> = Vec::new();
        while quot.len() < qlen
            invariant
                field.wf(),
                quot@.len() <= qlen,
                forall|t: int|
                    0 <= t < quot@.len() ==> (#[trigger] quot@[t]).value == 0 && quot@[t].field
                        == field,
            decreases qlen - quot@.len(),
        {
            quot.push(FiniteFieldElement::zero(field));
        }
        proof {
            assert forall|k: int| 0 <= k implies #[trigger] division_holds_at(
                a,
                values_of(quot@),
                b,
                values_of(rem@),
                k,
                p,
            ) by {
                lemma_convolution_of_zeros(values_of(quot@), b, k, qlen as nat);
                lemma_small_mod(0, p as nat);
            }
        }
        let ghost inv = lead_inv.value as int;
        let ghost target = divided(a, b, p);
        proof {
            assert(values_of(quot@) =~= Seq::new(qlen as nat, |k: int| 0int));
            assert(values_of(rem@) =~= a);
            assert(lead.value == b[db as int]);
        }
        let mut i: usize = qlen;
        while i > 0
            invariant
                inv == lead_inv.value,
                long_division(values_of(rem@), values_of(quot@), b, db as int, inv, i as nat, p)
                    == target,
                self.wf(),
                divisor.wf(),
                a == self.values(),
                b == divisor.values(),
                field == divisor.field(),
                field.wf(),
                p == field.prime,
                la == self.coefficients@.len(),
                da == degree_of(a),
                db == degree_of(b),
                db < b.len(),
                da >= db,
                la == 0 || da < la,
                qlen == da - db + 1,
                forall|t: int| db < t < b.len() ==> b[t] == 0,
                lead == divisor.coefficients@[db as int],
                lead_inv.wf(),
                lead_inv.field == field,
                is_prime(p) ==> (lead.value * lead_inv.value) % p == 1,
                i <= qlen,
                rem@.len() == la,
                quot@.len() == qlen,
                forall|t: int|
                    0 <= t < rem@.len() ==> (#[trigger] rem@[t]).wf() && rem@[t].field == field,
                forall|t: int|
                    0 <= t < quot@.len() ==> (#[trigger] quot@[t]).wf() && quot@[t].field == field,
                forall|t: int| 0 <= t < i ==> (#[trigger] quot@[t]).value == 0,
                division_holds(a, values_of(quot@), b, values_of(rem@), p),
                is_prime(p) ==> forall|k: int|
                    db + i <= k < la ==> (#[trigger] rem@[k]).value == 0,
            decreases i,
        {
            i = i - 1;
            let cur: usize = db + i;
            if cur < rem.len() && !rem[cur].is_zero() {
                let digit = rem[cur].multiply(lead_inv);
                let ghost q0 = values_of(quot@);
                let ghost r0 = values_of(rem@);
                quot.set(i, digit);
                assert(values_of(quot@) =~= q0.update(i as int, digit.value as int));
                let mut j: usize = 0;
                while j <= db
                    invariant
                        divisor.wf(),
                        b == divisor.values(),
                        field == divisor.field(),
                        field.wf(),
                        p == field.prime,
                        db < b.len(),
                        digit.wf(),
                        digit.field == field,
                        cur == db + i,
                        cur < la,
                        j <= db + 1,
                        rem@.len() == la,
                        r0.len() == la,
                        forall|t: int|
                            0 <= t < rem@.len() ==> (#[trigger] rem@[t]).wf() && rem@[t].field
                                == field,
                        forall|k: int|
                            0 <= k < la ==> (#[trigger] rem@[k]).value == (if i <= k < i + j {
                                (r0[k] - b[k - i] * digit.value) % p
                            } else {
                                r0[k]
                            }),
                    decreases db + 1 - j,
                {
                    let idx: usize = i + j;
                    let term = divisor.coefficients[j].multiply(digit);
                    let old_value = rem[idx];
                    proof {
                        lemma_sub_mod_noop_right(
                            r0[idx as int],
                            b[j as int] * digit.value,
                            p,
                        );
                    }
                    rem.set(idx, old_value.subtract(term));
                    j = j + 1;
                }
                proof {
                    let r1 = values_of(rem@);
                    assert(r1 =~= reduced_by(r0, b, i as int, db as int, digit.value as int, p));
                    lemma_division_step(
                        a,
                        q0,
                        b,
                        r0,
                        r1,
                        i as int,
                        digit.value as int,
                        db as int,
                        p,
                    );
                    if is_prime(p) {
                        lemma_lead_cancels(
                            r0[cur as int],
                            lead.value as int,
                            lead_inv.value as int,
                            p,
                        );
                        assert(b[db as int] == lead.value);
                        lemma_small_mod(rem@[cur as int].value as nat, p as nat);
                    }
                }
            }
        }
        let quotient = Polynomial { coefficients: quot };
        let full = Polynomial { coefficients: rem };
        let remainder = full.trim();
        proof {
            lemma_elements_of_values(quotient.coefficients@, field);
            lemma_elements_of_values(full.coefficients@, field);
            lemma_trimmed_coefficients(full.coefficients@);
            let r = remainder.values();
            assert forall|k: int| 0 <= k implies #[trigger] division_holds_at(
                a,
                quotient.values(),
                b,
                r,
                k,
                p,
            ) by {
                assert(division_holds_at(a, quotient.values(), b, full.values(), k, p));
                assert(coefficient(r, k) == coefficient(full.values(), k));
            }
            lemma_trimmed_len_bound(full.values());
            if remainder.coefficients@.len() > 0 {
                assert(remainder.coefficients@[0] == full.coefficients@[0]);
            }
        }
        (quotient, remainder)
    }
}

} // verus!
