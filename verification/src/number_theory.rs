use crate::constants::DEFAULT_FIELD_SIZE;
use vstd::arithmetic::div_mod::{
    lemma_fundamental_div_mod, lemma_mod_multiples_basic, lemma_mod_self_0,
    lemma_mul_mod_noop_general, lemma_mul_mod_noop_left, lemma_mul_mod_noop_right,
    lemma_small_mod, lemma_sub_mod_noop,
};
use vstd::arithmetic::power::{
    lemma0_pow, lemma1_pow, lemma_pow_adds, lemma_pow_mod_noop, lemma_pow_multiplies, pow,
};
use vstd::arithmetic::power2::{lemma2_to64, lemma_pow2_pos, lemma_pow2_unfold, pow2};
use vstd::prelude::*;
use vstd::set_lib::{lemma_int_range, lemma_len_subset, set_int_range};

verus! {

/// `p` is a prime number.
pub open spec fn is_prime(p: int) -> bool {
    p >= 2 && forall|d: int| 1 < d < p ==> #[trigger] (p % d) != 0
}

/// The product of the entries of a sequence.
pub open spec fn seq_product(s: Seq<int>) -> int
    decreases s.len(),
{
    if s.len() == 0 {
        1
    } else {
        seq_product(s.drop_last()) * s.last()
    }
}

/// `n!`.
pub open spec fn factorial(n: nat) -> int
    decreases n,
{
    if n == 0 {
        1
    } else {
        n * factorial((n - 1) as nat)
    }
}

/// The residues of `a, 2a, ..., n*a` modulo `p`.
pub open spec fn multiples(a: int, p: int, n: nat) -> Seq<int> {
    Seq::new(n, |i: int| (a * (i + 1)) % p)
}

/// A multiple of `p` leaves no remainder.
pub proof fn lemma_multiple_is_divisible(k: int, p: int)
    requires
        p > 0,
    ensures
        (k * p) % p == 0,
{
    lemma_mod_multiples_basic(k, p);
}

/// A prime that divides `a * b` with `0 < a < p` divides `b`.
proof fn lemma_euclid_small(p: int, a: int, b: int)
    requires
        is_prime(p),
        0 < a < p,
        (a * b) % p == 0,
    ensures
        b % p == 0,
    decreases a,
{
    if a == 1 {
        assert(a * b == b) by (nonlinear_arith)
            requires
                a == 1,
        ;
    } else {
        let r = p % a;
        let q = p / a;
        assert(r != 0);
        lemma_fundamental_div_mod(p, a);
        let k = (a * b) / p;
        lemma_fundamental_div_mod(a * b, p);
        assert(r * b == (b - q * k) * p) by (nonlinear_arith)
            requires
                p == a * q + r,
                a * b == p * k,
        ;
        lemma_multiple_is_divisible(b - q * k, p);
        lemma_euclid_small(p, r, b);
    }
}

/// Euclid's lemma: a prime that divides a product divides one of the factors.
pub proof fn lemma_euclid(p: int, a: int, b: int)
    requires
        is_prime(p),
        (a * b) % p == 0,
    ensures
        a % p == 0 || b % p == 0,
{
    if a % p != 0 {
        lemma_mul_mod_noop_left(a, b, p);
        lemma_euclid_small(p, a % p, b);
    }
}

/// Taking one entry out of a sequence divides its product by that entry.
proof fn lemma_product_remove(s: Seq<int>, k: int)
    requires
        0 <= k < s.len(),
    ensures
        seq_product(s) == s[k] * seq_product(s.remove(k)),
    decreases s.len(),
{
    if k == s.len() - 1 {
        assert(s.remove(k) =~= s.drop_last());
        let front = seq_product(s.drop_last());
        let top = s.last();
        assert(front * top == top * front) by (nonlinear_arith);
    } else {
        let front = s.drop_last();
        lemma_product_remove(front, k);
        assert(s.remove(k).drop_last() =~= front.remove(k));
        assert(s.remove(k).last() == s.last());
        let rest = seq_product(front.remove(k));
        assert((s[k] * rest) * s.last() == s[k] * (rest * s.last())) by (nonlinear_arith);
    }
}

/// A sequence of `n` distinct values from `1..=n` has the product `n!`.
proof fn lemma_permutation_product(s: Seq<int>, n: nat)
    requires
        s.len() == n,
        s.no_duplicates(),
        forall|i: int| 0 <= i < s.len() ==> 1 <= #[trigger] s[i] <= n,
    ensures
        seq_product(s) == factorial(n),
    decreases n,
{
    if n > 0 {
        if forall|i: int| 0 <= i < s.len() ==> #[trigger] s[i] != n {
            let below = set_int_range(1, n as int);
            lemma_int_range(1, n as int);
            assert(s.to_set().subset_of(below)) by {
                assert forall|v: int| s.to_set().contains(v) implies below.contains(v) by {
                    let i = choose|i: int| 0 <= i < s.len() && s[i] == v;
                    assert(s[i] != n);
                }
            }
            lemma_len_subset(s.to_set(), below);
            s.unique_seq_to_set();
            assert(false);
        }
        let k = choose|k: int| 0 <= k < s.len() && s[k] == n;
        let rest = s.remove(k);
        assert(rest.no_duplicates()) by {
            assert forall|i: int, j: int|
                0 <= i < rest.len() && 0 <= j < rest.len() && i != j implies rest[i] != rest[j] by {
                let si = if i < k {
                    i
                } else {
                    i + 1
                };
                let sj = if j < k {
                    j
                } else {
                    j + 1
                };
                assert(rest[i] == s[si]);
                assert(rest[j] == s[sj]);
            }
        }
        assert forall|i: int| 0 <= i < rest.len() implies 1 <= #[trigger] rest[i] <= n - 1 by {
            let si = if i < k {
                i
            } else {
                i + 1
            };
            assert(rest[i] == s[si]);
            assert(s[si] != s[k]);
        }
        lemma_permutation_product(rest, (n - 1) as nat);
        lemma_product_remove(s, k);
    }
}

/// The product of the first `n` multiples of `a` is congruent to `a^n * n!`.
proof fn lemma_multiples_product(a: int, p: int, n: nat)
    requires
        p > 0,
    ensures
        seq_product(multiples(a, p, n)) % p == (pow(a, n) * factorial(n)) % p,
    decreases n,
{
    reveal(pow);
    if n > 0 {
        let m = (n - 1) as nat;
        let s = multiples(a, p, n);
        assert(s.drop_last() =~= multiples(a, p, m));
        lemma_multiples_product(a, p, m);
        let front = seq_product(multiples(a, p, m));
        let exact = pow(a, m) * factorial(m);
        assert(s.last() == (a * n) % p);
        lemma_mul_mod_noop_general(front, a * n, p);
        lemma_mul_mod_noop_general(exact, a * n, p);
        assert(exact * (a * n) == pow(a, n) * factorial(n)) by (nonlinear_arith)
            requires
                exact == pow(a, m) * factorial(m),
                pow(a, n) == a * pow(a, m),
                factorial(n) == n * factorial(m),
        ;
    }
}

/// No factorial below a prime is divisible by it.
proof fn lemma_factorial_coprime(p: int, n: nat)
    requires
        is_prime(p),
        n < p,
    ensures
        factorial(n) % p != 0,
    decreases n,
{
    if n == 0 {
        lemma_small_mod(1, p as nat);
    } else {
        lemma_factorial_coprime(p, (n - 1) as nat);
        if factorial(n) % p == 0 {
            lemma_euclid(p, n as int, factorial((n - 1) as nat));
            lemma_small_mod(n, p as nat);
        }
    }
}

/// Fermat's little theorem: `a^(p-1)` is congruent to 1 modulo a prime `p`
/// that does not divide `a`.
pub proof fn lemma_fermat_little(p: int, a: int)
    requires
        is_prime(p),
        a % p != 0,
    ensures
        pow(a, (p - 1) as nat) % p == 1,
{
    let n = (p - 1) as nat;
    let s = multiples(a, p, n);
    assert forall|i: int| 0 <= i < s.len() implies 1 <= #[trigger] s[i] <= n by {
        if s[i] == 0 {
            lemma_euclid(p, a, i + 1);
            lemma_small_mod((i + 1) as nat, p as nat);
        }
    }
    assert(s.no_duplicates()) by {
        assert forall|i: int, j: int| 0 <= i < s.len() && 0 <= j < s.len() && i != j implies s[i]
            != s[j] by {
            if s[i] == s[j] {
                let hi = if i < j {
                    j
                } else {
                    i
                };
                let lo = if i < j {
                    i
                } else {
                    j
                };
                lemma_sub_mod_noop(a * (hi + 1), a * (lo + 1), p);
                assert(a * (hi + 1) - a * (lo + 1) == a * (hi - lo)) by (nonlinear_arith);
                lemma_small_mod(0, p as nat);
                lemma_euclid(p, a, hi - lo);
                lemma_small_mod((hi - lo) as nat, p as nat);
            }
        }
    }
    lemma_permutation_product(s, n);
    lemma_multiples_product(a, p, n);
    let f = factorial(n);
    let e = pow(a, n);
    assert((e * f) % p == f % p);
    lemma_sub_mod_noop(e * f, f, p);
    lemma_small_mod(0, p as nat);
    assert(e * f - f == f * (e - 1)) by (nonlinear_arith);
    lemma_euclid(p, f, e - 1);
    lemma_factorial_coprime(p, n);
    assert((e - 1) % p == 0);
    lemma_fundamental_div_mod(e - 1, p);
    let k = (e - 1) / p;
    assert(e == p * k + 1);
    vstd::arithmetic::div_mod::lemma_mod_multiples_vanish(k, 1, p);
    lemma_small_mod(1, p as nat);
}

/// In a prime field, `a^(p-2)` is the multiplicative inverse of a non-zero `a`.
pub proof fn lemma_fermat_inverse(p: int, a: int)
    requires
        is_prime(p),
        a % p != 0,
    ensures
        (a * (pow(a, (p - 2) as nat) % p)) % p == 1,
{
    lemma_fermat_little(p, a);
    reveal(pow);
    assert(pow(a, (p - 1) as nat) == a * pow(a, (p - 2) as nat));
    lemma_mul_mod_noop_right(a, pow(a, (p - 2) as nat), p);
}

/// The least divisor of `n` that is at least `d`.
pub open spec fn least_divisor_from(n: int, d: int) -> int
    decreases n - d,
{
    if d >= n {
        n
    } else if n % d == 0 {
        d
    } else {
        least_divisor_from(n, d + 1)
    }
}

/// The least divisor from `d` on divides `n`, and nothing between 2 and it does.
proof fn lemma_least_divisor(n: int, d: int)
    requires
        2 <= d <= n,
        forall|e: int| 2 <= e < d ==> #[trigger] (n % e) != 0,
    ensures
        d <= least_divisor_from(n, d) <= n,
        n % least_divisor_from(n, d) == 0,
        forall|e: int| 2 <= e < least_divisor_from(n, d) ==> #[trigger] (n % e) != 0,
    decreases n - d,
{
    if d >= n {
        lemma_mod_self_0(n);
    } else if n % d != 0 {
        lemma_least_divisor(n, d + 1);
    }
}

/// A divisor of a divisor is a divisor.
proof fn lemma_divides_transitive(e: int, r: int, n: int)
    requires
        e > 0,
        r > 0,
        r % e == 0,
        n % r == 0,
    ensures
        n % e == 0,
{
    lemma_fundamental_div_mod(r, e);
    lemma_fundamental_div_mod(n, r);
    let x = r / e;
    let y = n / r;
    assert(n == (x * y) * e) by (nonlinear_arith)
        requires
            r == e * x,
            n == r * y,
    ;
    lemma_multiple_is_divisible(x * y, e);
}

/// The least divisor above one of a number is a prime, and its square is at
/// most the number when the number is not itself a prime.
pub proof fn lemma_least_prime_divisor(n: int)
    requires
        n >= 2,
    ensures
        is_prime(least_divisor_from(n, 2)),
        n % least_divisor_from(n, 2) == 0,
        !is_prime(n) ==> least_divisor_from(n, 2) * least_divisor_from(n, 2) <= n,
{
    let r = least_divisor_from(n, 2);
    lemma_least_divisor(n, 2);
    assert forall|e: int| 1 < e < r implies #[trigger] (r % e) != 0 by {
        if r % e == 0 {
            lemma_divides_transitive(e, r, n);
            assert(n % e != 0);
        }
    }
    if !is_prime(n) {
        let d = choose|d: int| 1 < d < n && #[trigger] (n % d) == 0;
        assert(r <= d);
        lemma_fundamental_div_mod(n, r);
        let q = n / r;
        assert(q >= 2) by (nonlinear_arith)
            requires
                n == r * q,
                2 <= r < n,
        ;
        assert(n == q * r) by (nonlinear_arith)
            requires
                n == r * q,
        ;
        lemma_multiple_is_divisible(r, q);
        if q < r {
            assert(n % q != 0);
        }
        assert(r * r <= r * q) by (nonlinear_arith)
            requires
                r <= q,
                r >= 0,
        ;
    }
}

/// The powers of minus one: one for an even exponent, minus one for an odd one.
proof fn lemma_pow_minus_one(r: int, m: nat)
    requires
        r >= 2,
    ensures
        pow(r - 1, m) % r == (if m % 2 == 0 {
            1int
        } else {
            r - 1
        }),
    decreases m,
{
    reveal(pow);
    if m == 0 {
        lemma_small_mod(1, r as nat);
    } else {
        let before = pow(r - 1, (m - 1) as nat);
        lemma_pow_minus_one(r, (m - 1) as nat);
        lemma_mul_mod_noop_right(r - 1, before, r);
        if (m - 1) % 2 == 0 {
            assert((r - 1) * 1 == r - 1);
            lemma_small_mod((r - 1) as nat, r as nat);
        } else {
            assert((r - 1) * (r - 1) == r * (r - 2) + 1) by (nonlinear_arith);
            vstd::arithmetic::div_mod::lemma_mod_multiples_vanish(r - 2, 1, r);
            lemma_small_mod(1, r as nat);
        }
    }
}

/// An element whose power `2^(n-1)` is minus one has the order `2^n`: every
/// exponent that takes it to one is a multiple of `2^n`.
proof fn lemma_two_power_divides(c: int, r: int, n: nat, e: nat)
    requires
        r >= 3,
        n >= 1,
        pow(c, pow2((n - 1) as nat)) % r == r - 1,
        pow(c, e) % r == 1,
    ensures
        e % pow2(n) == 0,
    decreases n,
{
    let m = pow2((n - 1) as nat);
    lemma_pow2_pos((n - 1) as nat);
    lemma_pow2_unfold(n);
    if e % 2 == 1 {
        let y = pow(c, e);
        lemma_pow_mod_noop(y, m, r);
        lemma_small_mod(1, r as nat);
        lemma1_pow(m);
        assert(pow(y, m) % r == 1);
        lemma_pow_multiplies(c, e, m);
        lemma_pow_multiplies(c, m, e);
        assert(e * m == m * e) by (nonlinear_arith);
        let x = pow(c, m);
        assert(pow(x, e) == pow(y, m));
        lemma_pow_mod_noop(x, e, r);
        lemma_pow_minus_one(r, e);
        assert(false);
    }
    if n > 1 {
        let half = pow2((n - 2) as nat);
        lemma_pow2_unfold((n - 1) as nat);
        let square = pow(c, 2);
        let rest = (e / 2) as nat;
        lemma_pow_multiplies(c, 2, half);
        assert(2 * half == m);
        lemma_pow_multiplies(c, 2, rest);
        assert(2 * rest == e);
        lemma_two_power_divides(square, r, (n - 1) as nat, rest);
        lemma_fundamental_div_mod(rest as int, m as int);
        let t = (rest as int) / (m as int);
        assert(e == t * pow2(n)) by (nonlinear_arith)
            requires
                rest == m * t,
                e == 2 * rest,
                pow2(n) == 2 * m,
        ;
        lemma_multiple_is_divisible(t, pow2(n) as int);
    } else {
        lemma2_to64();
    }
}

/// Proth's criterion: a number `k * 2^n + 1` with `k < 2^n` is a prime when
/// some `a` raised to half of `k * 2^n` is minus one modulo it.
pub proof fn lemma_proth(p: int, k: nat, n: nat, a: int)
    requires
        n >= 1,
        0 < k < pow2(n),
        p == k * pow2(n) + 1,
        pow(a, k * pow2((n - 1) as nat)) % p == p - 1,
    ensures
        is_prime(p),
{
    let m = pow2((n - 1) as nat);
    lemma_pow2_pos((n - 1) as nat);
    lemma_pow2_unfold(n);
    assert(p == 2 * (k * m) + 1) by (nonlinear_arith)
        requires
            p == k * pow2(n) + 1,
            pow2(n) == 2 * m,
    ;
    assert(k * m >= 1) by (nonlinear_arith)
        requires
            k >= 1,
            m >= 1,
    ;
    if !is_prime(p) {
        let r = least_divisor_from(p, 2);
        lemma_least_prime_divisor(p);
        assert(r != 2);
        let x = pow(a, k * m);
        // x is minus one modulo r as well
        lemma_fundamental_div_mod(x, p);
        lemma_fundamental_div_mod(p, r);
        let q = x / p;
        let s = p / r;
        assert(x == r * (s * (q + 1) - 1) + (r - 1)) by (nonlinear_arith)
            requires
                x == p * q + (p - 1),
                p == r * s,
        ;
        vstd::arithmetic::div_mod::lemma_mod_multiples_vanish(s * (q + 1) - 1, r - 1, r);
        lemma_small_mod((r - 1) as nat, r as nat);
        assert(x % r == r - 1);
        let b = pow(a, k);
        lemma_pow_multiplies(a, k, m);
        assert(pow(b, m) == x);
        if b % r == 0 {
            lemma_pow_mod_noop(b, m, r);
            lemma0_pow(m);
            lemma_small_mod(0, r as nat);
            assert(false);
        }
        lemma_fermat_little(r, b);
        lemma_two_power_divides(b, r, n, (r - 1) as nat);
        lemma_fundamental_div_mod(r - 1, pow2(n) as int);
        let t = (r - 1) / (pow2(n) as int);
        let w = pow2(n) as int;
        assert(t >= 1) by (nonlinear_arith)
            requires
                r - 1 == w * t,
                r - 1 > 0,
                w > 0,
        ;
        assert(r * r > p) by (nonlinear_arith)
            requires
                r - 1 == w * t,
                t >= 1,
                w > 0,
                p == k * w + 1,
                0 < k < w,
        ;
        assert(false);
    }
}

/// Squaring a power doubles its exponent.
proof fn lemma_square_step(a: int, e: nat, p: int, c: int, d: int)
    requires
        p > 0,
        pow(a, e) % p == c,
        (c * c) % p == d,
    ensures
        pow(a, 2 * e) % p == d,
{
    lemma_pow_adds(a, e, e);
    lemma_mul_mod_noop_general(pow(a, e), pow(a, e), p);
}

/// The default prime `3 * 2^30 + 1` is a prime, by Proth's criterion with
/// the witness 5.
pub proof fn lemma_default_prime()
    ensures
        is_prime(DEFAULT_FIELD_SIZE as int),
{
    lemma2_to64();
    reveal_with_fuel(pow, 4);
    assert(pow(5, 3) == 125);
    lemma_small_mod(125, 3221225473);
    lemma_square_step(5, 3, 3221225473, 125, 15625);
    lemma_square_step(5, 6, 3221225473, 15625, 244140625);
    lemma_square_step(5, 12, 3221225473, 244140625, 229807484);
    lemma_square_step(5, 24, 3221225473, 229807484, 247425463);
    lemma_square_step(5, 48, 3221225473, 247425463, 1838654099);
    lemma_square_step(5, 96, 3221225473, 1838654099, 538601489);
    lemma_square_step(5, 192, 3221225473, 538601489, 140749519);
    lemma_square_step(5, 384, 3221225473, 140749519, 3182672916);
    lemma_square_step(5, 768, 3221225473, 3182672916, 448192265);
    lemma_square_step(5, 1536, 3221225473, 448192265, 3009749949);
    lemma_square_step(5, 3072, 3221225473, 3009749949, 511777184);
    lemma_square_step(5, 6144, 3221225473, 511777184, 1358427440);
    lemma_square_step(5, 12288, 3221225473, 1358427440, 1800384970);
    lemma_square_step(5, 24576, 3221225473, 1800384970, 2519378301);
    lemma_square_step(5, 49152, 3221225473, 2519378301, 1405588668);
    lemma_square_step(5, 98304, 3221225473, 1405588668, 1445148504);
    lemma_square_step(5, 196608, 3221225473, 1445148504, 1734477367);
    lemma_square_step(5, 393216, 3221225473, 1734477367, 211283056);
    lemma_square_step(5, 786432, 3221225473, 211283056, 1168849724);
    lemma_square_step(5, 1572864, 3221225473, 1168849724, 1855261384);
    lemma_square_step(5, 3145728, 3221225473, 1855261384, 764652596);
    lemma_square_step(5, 6291456, 3221225473, 764652596, 1958494276);
    lemma_square_step(5, 12582912, 3221225473, 1958494276, 1292405718);
    lemma_square_step(5, 25165824, 3221225473, 1292405718, 651814490);
    lemma_square_step(5, 50331648, 3221225473, 651814490, 66931328);
    lemma_square_step(5, 100663296, 3221225473, 66931328, 2526611335);
    lemma_square_step(5, 201326592, 3221225473, 2526611335, 1031213943);
    lemma_square_step(5, 402653184, 3221225473, 1031213943, 1013946479);
    lemma_square_step(5, 805306368, 3221225473, 1013946479, 3221225472);
    assert(pow(5, 3 * pow2(29)) % 3221225473 == 3221225472);
    lemma_proth(3221225473, 3, 30, 5);
}

} // verus!
