use vstd::arithmetic::div_mod::{
    lemma_add_mod_noop_right, lemma_fundamental_div_mod, lemma_mul_mod_noop_left, lemma_small_mod,
};
use vstd::prelude::*;

verus! {

/// Remainder of `a` by a positive `m` that carries the sign of `a`.
pub open spec fn signed_rem(a: int, m: int) -> int {
    if a >= 0 {
        a % m
    } else {
        -((-a) % m)
    }
}

/// What `modulo_multiply` returns: both factors are first reduced with the
/// signed remainder; a second factor that is not positive after that gives 0,
/// otherwise the signed remainder of the product of the two.
pub open spec fn modulo_product(a: int, b: int, m: int) -> int {
    let x = signed_rem(a, m);
    let y = signed_rem(b, m);
    if y <= 0 {
        0
    } else {
        signed_rem(x * y, m)
    }
}

/// One round of doubling keeps the weighted sum `acc + x * y` in its residue class.
proof fn lemma_double_and_add_step(acc: int, x: int, y: int, m: int)
    requires
        m > 0,
        y > 0,
    ensures
        (((acc + (y % 2) * x) % m) + ((x * 2) % m) * (y / 2)) % m == (acc + x * y) % m,
{
    let q = y / 2;
    let r = y % 2;
    lemma_fundamental_div_mod(y, 2);
    let a1 = acc + r * x;
    let b1 = (x * 2) * q;
    assert(a1 + b1 == acc + x * y) by (nonlinear_arith)
        requires
            y == 2 * q + r,
            a1 == acc + r * x,
            b1 == (x * 2) * q,
    ;
    let b2 = ((x * 2) % m) * q;
    lemma_mul_mod_noop_left(x * 2, q, m);
    assert(b2 % m == b1 % m);
    lemma_add_mod_noop_right(b2, a1, m);
    assert(((a1 % m) + b2) % m == (a1 + b2) % m);
    lemma_add_mod_noop_right(a1, b2, m);
    lemma_add_mod_noop_right(a1, b1, m);
}

/// Product of two residues modulo `m`, computed by doubling and adding so that
/// no intermediate value leaves the machine range, whatever the size of `m`.
pub fn multiply_residues(a: i128, b: i128, m: i128) -> (result: i128)
    requires
        0 <= a < m,
        0 <= b < m,
    ensures
        result == (a * b) % (m as int),
        0 <= result < m,
{
    let modulus: u128 = m as u128;
    let mut acc: u128 = 0;
    let mut x: u128 = a as u128;
    let mut y: u128 = b as u128;
    while y > 0
        invariant
            modulus == m,
            0 < m,
            acc < modulus,
            x < modulus,
            (acc + x * y) % (m as int) == (a * b) % (m as int),
        decreases y,
    {
        proof {
            lemma_double_and_add_step(acc as int, x as int, y as int, m as int);
        }
        let ghost acc0 = acc as int;
        let ghost x0 = x as int;
        let ghost y0 = y as int;
        if y % 2 == 1 {
            acc = (acc + x) % modulus;
            assert(acc == (acc0 + (y0 % 2) * x0) % (m as int)) by (nonlinear_arith)
                requires
                    y0 % 2 == 1,
                    acc == (acc0 + x0) % (m as int),
            ;
        } else {
            proof {
                lemma_small_mod(acc as nat, modulus as nat);
                assert(acc == (acc0 + (y0 % 2) * x0) % (m as int)) by (nonlinear_arith)
                    requires
                        y0 % 2 == 0,
                        acc == acc0,
                        acc0 == acc0 % (m as int),
                ;
            }
        }
        x = (x * 2) % modulus;
        y = y / 2;
    }
    proof {
        lemma_small_mod(acc as nat, modulus as nat);
    }
    acc as i128
}

/// Multiplies `a` by `b` modulo `modulus` without overflowing, by doubling and adding.
pub fn modulo_multiply(a: i128, b: i128, modulus: i128) -> (result: i128)
    requires
        modulus > 0,
    ensures
        result == modulo_product(a as int, b as int, modulus as int),
{
    let x: i128 = a % modulus;
    let y: i128 = b % modulus;
    if y <= 0 {
        0
    } else if x >= 0 {
        multiply_residues(x, y, modulus)
    } else {
        let r: i128 = multiply_residues(-x, y, modulus);
        assert((-x) * y == -(x * y)) by (nonlinear_arith);
        assert(x * y < 0) by (nonlinear_arith)
            requires
                x < 0,
                y > 0,
        ;
        -r
    }
}

} // verus!
