use vstd::prelude::*;

verus! {

/// Quotient of `n` by ten, rounded toward zero.
pub open spec fn decimal_rest(n: int) -> int {
    if n >= 0 {
        n / 10
    } else {
        -((-n) / 10)
    }
}

/// Last decimal digit of `n`, carrying the sign of `n`.
pub open spec fn decimal_digit(n: int) -> int {
    if n >= 0 {
        n % 10
    } else {
        -((-n) % 10)
    }
}

/// Absolute value of a machine integer, as a natural number.
pub open spec fn magnitude(n: i128) -> nat {
    if n >= 0 {
        n as nat
    } else {
        (-(n as int)) as nat
    }
}

/// Folds the decimal digits of `num`, least significant first, into `acc`:
/// each digit shifts the accumulator by the factor 113 and is then added,
/// both with wrap-around.
#[verifier::opaque]
pub open spec fn mix_digits(num: i128, acc: i128) -> i128
    decreases magnitude(num),
{
    if num == 0 {
        acc
    } else {
        mix_digits(
            decimal_rest(num as int) as i128,
            acc.wrapping_mul(113).wrapping_add(decimal_digit(num as int) as i128),
        )
    }
}

/// The value of the hash: the input is spread by the prime 100003 and its
/// decimal digits are folded into the seed 3.
pub open spec fn hash_value(input: i128) -> i128 {
    mix_digits(input.wrapping_mul(100003), 3)
}

/// A toy integer hash: a polynomial rolling hash over the decimal digits.
pub fn hash(input: i128) -> (result: i128)
    ensures
        result == hash_value(input),
{
    let mut acc: i128 = 3;
    let mut num: i128 = input.wrapping_mul(100003);
    proof {
        reveal(mix_digits);
    }
    while num != 0
        invariant
            mix_digits(num, acc) == hash_value(input),
        decreases magnitude(num),
    {
        proof {
            reveal(mix_digits);
        }
        let digit: i128 = num % 10;
        acc = acc.wrapping_mul(113);
        acc = acc.wrapping_add(digit);
        num = num / 10;
    }
    acc
}

} // verus!
