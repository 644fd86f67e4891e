use crate::constants::DEFAULT_FIELD_SIZE;
use crate::hashing::{hash, hash_value};
use crate::number::multiply_residues;
use crate::number_theory::{is_prime, lemma_fermat_inverse, lemma_fermat_little};
use vstd::arithmetic::div_mod::{
    lemma_add_mod_noop, lemma_add_mod_noop_right, lemma_fundamental_div_mod,
    lemma_mod_multiples_vanish, lemma_mul_mod_noop_general, lemma_mul_mod_noop_left,
    lemma_mul_mod_noop_right, lemma_small_mod,
};
use vstd::arithmetic::mul::{lemma_mul_is_associative, lemma_mul_is_distributive_add};
use vstd::arithmetic::power::{
    lemma_pow0, lemma_pow_mod_noop, lemma_pow_multiplies, lemma_square_is_pow2, pow,
};
use vstd::prelude::*;

verus! {

/// A prime field, represented by its prime alone.
#[derive(Debug, Clone, Copy, PartialEq, Eq, Structural)]
pub struct FiniteField {
    pub prime: i128,
}

/// An element of a prime field: a value together with the field it lives in.
#[derive(Debug, Clone, Copy, PartialEq, Eq, Structural)]
pub struct FiniteFieldElement {
    pub value: i128,
    pub field: FiniteField,
}

/// The field over the default prime.
pub open spec fn default_field() -> FiniteField {
    FiniteField { prime: DEFAULT_FIELD_SIZE }
}

/// The element of `field` that `value` stands for: its residue in `[0, p)`.
pub open spec fn residue(value: int, field: FiniteField) -> FiniteFieldElement {
    FiniteFieldElement { value: (value % (field.prime as int)) as i128, field }
}

/// The exponent that `pow` works with: a negative one counts as zero.
pub open spec fn exponent_of(e: i128) -> nat {
    if e > 0 {
        e as nat
    } else {
        0
    }
}

/// The exponent that inverts in a field of `p` elements: `p - 2`.
pub open spec fn inverse_exponent(p: int) -> nat {
    if p >= 2 {
        (p - 2) as nat
    } else {
        0
    }
}

/// A value in `[m, 2m)` leaves the remainder `x - m`.
pub proof fn lemma_mod_wrap_once(x: int, m: int)
    requires
        0 < m,
        m <= x < 2 * m,
    ensures
        x % m == x - m,
{
    lemma_mod_multiples_vanish(1, x - m, m);
    lemma_small_mod((x - m) as nat, m as nat);
}

/// Unfolds one factor of a power with a positive exponent.
pub proof fn lemma_pow_unfold(b: int, e: nat)
    requires
        e > 0,
    ensures
        pow(b, e) == b * pow(b, (e - 1) as nat),
{
    reveal(pow);
}

/// One round of square-and-multiply keeps `r * b^e` in its residue class.
proof fn lemma_square_and_multiply_step(r: int, b: int, e: int, p: int)
    requires
        e > 0,
        p > 0,
    ensures
        ((if e % 2 == 1 {
            (r * b) % p
        } else {
            r
        }) * pow((b * b) % p, (e / 2) as nat)) % p == (r * pow(b, e as nat)) % p,
{
    let h = (e / 2) as nat;
    lemma_fundamental_div_mod(e, 2);
    let sq = pow(b * b, h);
    lemma_pow_mod_noop(b * b, h, p);
    lemma_square_is_pow2(b);
    lemma_pow_multiplies(b, 2, h);
    assert(sq == pow(b, 2 * h));
    let reduced = pow((b * b) % p, h);
    assert(reduced % p == sq % p);
    if e % 2 == 1 {
        assert(e as nat == 2 * h + 1);
        lemma_pow_unfold(b, e as nat);
        assert(pow(b, e as nat) == b * sq);
        lemma_mul_mod_noop_general(r * b, reduced, p);
        lemma_mul_mod_noop_general(r * b, sq, p);
        lemma_mul_is_associative(r, b, sq);
    } else {
        assert(e as nat == 2 * h);
        lemma_mul_mod_noop_general(r, reduced, p);
        lemma_mul_mod_noop_general(r, sq, p);
    }
}

impl FiniteField {
    /// A field is usable when its modulus is positive.
    pub open spec fn wf(&self) -> bool {
        self.prime > 0
    }

    /// The field of the integers modulo `prime`.
    pub fn new(prime: i128) -> (result: Self)
        ensures
            result.prime == prime,
    {
        FiniteField { prime }
    }

    /// The element of this field that `value` stands for.
    pub fn element(&self, value: i128) -> (result: FiniteFieldElement)
        requires
            self.wf(),
        ensures
            result == residue(value as int, *self),
            result.wf(),
    {
        FiniteFieldElement::new_fielded(value, *self)
    }
}

impl FiniteFieldElement {
    /// The default prime, `3 * 2^30 + 1`.
    pub const DEFAULT_FIELD_SIZE: i128 = 3221225473;

    /// An element is well formed when its value is the canonical residue.
    pub open spec fn wf(&self) -> bool {
        self.field.wf() && 0 <= self.value < self.field.prime
    }

    /// The sum of two elements of one field.
    pub open spec fn sum(self, other: Self) -> Self {
        residue(self.value + other.value, self.field)
    }

    /// The difference of two elements of one field.
    pub open spec fn difference(self, other: Self) -> Self {
        residue(self.value - other.value, self.field)
    }

    /// The product of two elements of one field.
    pub open spec fn product(self, other: Self) -> Self {
        residue(self.value * other.value, self.field)
    }

    /// The additive inverse.
    pub open spec fn negation(self) -> Self {
        residue(self.field.prime - self.value, self.field)
    }

    /// The element raised to the power `e`.
    pub open spec fn power(self, e: nat) -> Self {
        residue(pow(self.value as int, e), self.field)
    }

    /// The multiplicative inverse by Fermat's little theorem: the power `p - 2`.
    pub open spec fn reciprocal(self) -> Self {
        self.power(inverse_exponent(self.field.prime as int))
    }

    /// The element of the default field that `value` stands for.
    pub fn new(value: i128) -> (result: Self)
        ensures
            result == residue(value as int, default_field()),
            result.wf(),
    {
        FiniteFieldElement::new_fielded(value, FiniteField { prime: DEFAULT_FIELD_SIZE })
    }

    /// The element of `field` that `value` stands for: negative values are
    /// brought into `[0, p)` as well.
    pub fn new_fielded(value: i128, field: FiniteField) -> (result: Self)
        requires
            field.wf(),
        ensures
            result == residue(value as int, field),
            result.wf(),
    {
        let t: i128 = value % field.prime;
        if t < 0 {
            proof {
                let p = field.prime as int;
                let v = value as int;
                lemma_fundamental_div_mod(-v, p);
                lemma_mod_multiples_vanish(-((-v) / p) - 1, t + p, p);
                assert(p * (-((-v) / p) - 1) + (t + p) == v) by (nonlinear_arith)
                    requires
                        -v == p * ((-v) / p) + ((-v) % p),
                        t == -((-v) % p),
                ;
                lemma_small_mod((t + p) as nat, p as nat);
            }
            FiniteFieldElement { value: t + field.prime, field }
        } else {
            proof {
                let p = field.prime as int;
                let v = value as int;
                if v < 0 {
                    lemma_fundamental_div_mod(-v, p);
                    lemma_mod_multiples_vanish(-((-v) / p), 0, p);
                    assert(p * (-((-v) / p)) + 0 == v) by (nonlinear_arith)
                        requires
                            -v == p * ((-v) / p) + ((-v) % p),
                            (-v) % p == 0,
                    ;
                    lemma_small_mod(0, p as nat);
                }
            }
            FiniteFieldElement { value: t, field }
        }
    }

    /// The zero of `field`.
    pub fn zero(field: FiniteField) -> (result: Self)
        requires
            field.wf(),
        ensures
            result.value == 0,
            result.field == field,
            result.wf(),
    {
        FiniteFieldElement { value: 0, field }
    }

    /// The sum, reduced without leaving the machine range.
    pub fn add(&self, other: Self) -> (result: Self)
        requires
            self.wf(),
            other.wf(),
            self.field == other.field,
        ensures
            result == self.sum(other),
            result.wf(),
    {
        let p: i128 = self.field.prime;
        let gap: i128 = p - other.value;
        if self.value >= gap {
            proof {
                lemma_mod_wrap_once(self.value + other.value, p as int);
            }
            FiniteFieldElement { value: self.value - gap, field: self.field }
        } else {
            proof {
                lemma_small_mod((self.value + other.value) as nat, p as nat);
            }
            FiniteFieldElement { value: self.value + other.value, field: self.field }
        }
    }

    /// The difference, kept non-negative by adding the prime where needed.
    pub fn subtract(&self, other: Self) -> (result: Self)
        requires
            self.wf(),
            other.wf(),
            self.field == other.field,
        ensures
            result == self.difference(other),
            result.wf(),
    {
        let p: i128 = self.field.prime;
        if self.value >= other.value {
            proof {
                lemma_small_mod((self.value - other.value) as nat, p as nat);
            }
            FiniteFieldElement { value: self.value - other.value, field: self.field }
        } else {
            proof {
                lemma_mod_multiples_vanish(1, self.value - other.value, p as int);
                lemma_small_mod((self.value - other.value + p) as nat, p as nat);
            }
            FiniteFieldElement { value: self.value + (p - other.value), field: self.field }
        }
    }

    /// The product: computed directly where it fits the machine integer, and
    /// by doubling and adding in larger fields.
    pub fn multiply(&self, other: Self) -> (result: Self)
        requires
            self.wf(),
            other.wf(),
            self.field == other.field,
        ensures
            result == self.product(other),
            result.wf(),
    {
        let p: i128 = self.field.prime;
        if p <= 0x8000_0000_0000_0000 {
            assert(self.value * other.value <= 0x7fff_ffff_ffff_ffff * 0x7fff_ffff_ffff_ffff)
                by (nonlinear_arith)
                requires
                    0 <= self.value <= 0x7fff_ffff_ffff_ffff,
                    0 <= other.value <= 0x7fff_ffff_ffff_ffff,
            ;
            assert(0 <= self.value * other.value) by (nonlinear_arith)
                requires
                    0 <= self.value,
                    0 <= other.value,
            ;
            let product: i128 = self.value * other.value;
            FiniteFieldElement { value: product % p, field: self.field }
        } else {
            FiniteFieldElement {
                value: multiply_residues(self.value, other.value, p),
                field: self.field,
            }
        }
    }

    /// Raises the element to `exponent` by squaring and multiplying.
    pub fn pow(&self, exponent: i128) -> (result: Self)
        requires
            self.wf(),
        ensures
            result == self.power(exponent_of(exponent)),
            result.wf(),
    {
        let ghost p = self.field.prime as int;
        let ghost target = pow(self.value as int, exponent_of(exponent));
        let mut result = FiniteFieldElement::new_fielded(1, self.field);
        let mut base = *self;
        let mut exp: i128 = exponent;
        proof {
            lemma_mul_mod_noop_left(1, target, p);
            if exponent <= 0 {
                lemma_pow0(self.value as int);
            }
        }
        while exp > 0
            invariant
                p == self.field.prime,
                self.wf(),
                base.wf(),
                result.wf(),
                base.field == self.field,
                result.field == self.field,
                exp > 0 ==> (result.value * pow(base.value as int, exp as nat)) % p == target % p,
                exp <= 0 ==> result.value == target % p,
            decreases exp,
        {
            proof {
                lemma_square_and_multiply_step(
                    result.value as int,
                    base.value as int,
                    exp as int,
                    p,
                );
            }
            if exp % 2 == 1 {
                result = result.multiply(base);
            }
            base = base.multiply(base);
            exp = exp / 2;
            proof {
                if exp == 0 {
                    lemma_pow0(base.value as int);
                    lemma_small_mod(result.value as nat, p as nat);
                }
            }
        }
        result
    }

    /// The multiplicative inverse of a non-zero element, computed as the power
    /// `p - 2`. In a prime field the product of the two is one.
    pub fn inverse(&self) -> (result: Self)
        requires
            self.wf(),
            self.value != 0,
        ensures
            result == self.reciprocal(),
            result.wf(),
            is_prime(self.field.prime as int) ==> self.product(result) == residue(1, self.field),
    {
        let result = self.pow(self.field.prime - 2);
        proof {
            let p = self.field.prime as int;
            if is_prime(p) {
                lemma_small_mod(self.value as nat, p as nat);
                lemma_small_mod(1, p as nat);
                lemma_fermat_inverse(p, self.value as int);
                assert(result.value == pow(self.value as int, (p - 2) as nat) % p);
            }
        }
        result
    }

    /// The additive inverse, `p - value` reduced.
    pub fn negate(&self) -> (result: Self)
        requires
            self.wf(),
        ensures
            result == self.negation(),
            result.wf(),
    {
        let p: i128 = self.field.prime;
        if self.value == 0 {
            proof {
                lemma_mod_multiples_vanish(1, 0, p as int);
                lemma_small_mod(0, p as nat);
            }
            FiniteFieldElement { value: 0, field: self.field }
        } else {
            proof {
                lemma_small_mod((p - self.value) as nat, p as nat);
                lemma_mod_multiples_vanish(1, 0, p as int);
                lemma_small_mod(0, p as nat);
            }
            FiniteFieldElement { value: p - self.value, field: self.field }
        }
    }

    /// Whether the element is the zero of its field.
    pub fn is_zero(&self) -> (result: bool)
        ensures
            result == (self.value == 0),
    {
        self.value == 0
    }

    /// The hash of the element's value.
    pub fn hash(&self) -> (result: i128)
        ensures
            result == hash_value(self.value),
    {
        hash(self.value)
    }
}

/// Addition in a field is associative: `(a + b) + c = a + (b + c)`.
pub proof fn lemma_add_associative(
    a: FiniteFieldElement,
    b: FiniteFieldElement,
    c: FiniteFieldElement,
)
    requires
        a.wf(),
        b.wf(),
        c.wf(),
        a.field == b.field,
        b.field == c.field,
    ensures
        a.sum(b).sum(c) == a.sum(b.sum(c)),
{
    let p = a.field.prime as int;
    lemma_add_mod_noop(a.value + b.value, c.value as int, p);
    lemma_add_mod_noop(a.value as int, b.value + c.value, p);
    lemma_small_mod(a.value as nat, p as nat);
    lemma_small_mod(c.value as nat, p as nat);
}

/// Multiplication distributes over addition: `a * (b + c) = a * b + a * c`.
pub proof fn lemma_multiply_distributes(
    a: FiniteFieldElement,
    b: FiniteFieldElement,
    c: FiniteFieldElement,
)
    requires
        a.wf(),
        b.wf(),
        c.wf(),
        a.field == b.field,
        b.field == c.field,
    ensures
        a.product(b.sum(c)) == a.product(b).sum(a.product(c)),
{
    let p = a.field.prime as int;
    lemma_mul_mod_noop_right(a.value as int, b.value + c.value, p);
    lemma_mul_is_distributive_add(a.value as int, b.value as int, c.value as int);
    lemma_add_mod_noop(a.value * b.value, a.value * c.value, p);
}

/// An element and its negation add up to zero: `a + (-a) = 0`.
pub proof fn lemma_negate_cancels(a: FiniteFieldElement)
    requires
        a.wf(),
    ensures
        a.sum(a.negation()) == residue(0, a.field),
{
    let p = a.field.prime as int;
    lemma_add_mod_noop_right(a.value as int, p - a.value, p);
    lemma_mod_multiples_vanish(1, 0, p);
}

/// In a prime field a non-zero element times its inverse is one: `a * a^-1 = 1`.
pub proof fn lemma_inverse_cancels(a: FiniteFieldElement)
    requires
        a.wf(),
        a.value != 0,
        is_prime(a.field.prime as int),
    ensures
        a.product(a.reciprocal()) == residue(1, a.field),
{
    let p = a.field.prime as int;
    lemma_small_mod(a.value as nat, p as nat);
    lemma_small_mod(1, p as nat);
    lemma_fermat_inverse(p, a.value as int);
}

/// In a prime field a non-zero element raised to `p - 1` is one.
pub proof fn lemma_power_of_order(a: FiniteFieldElement)
    requires
        a.wf(),
        a.value != 0,
        is_prime(a.field.prime as int),
    ensures
        a.power((a.field.prime - 1) as nat) == residue(1, a.field),
{
    let p = a.field.prime as int;
    lemma_small_mod(a.value as nat, p as nat);
    lemma_small_mod(1, p as nat);
    lemma_fermat_little(p, a.value as int);
}

} // verus!
