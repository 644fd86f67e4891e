use crate::finite_field::lemma_mod_wrap_once;
use crate::number::{modulo_multiply, modulo_product};
use vstd::arithmetic::div_mod::lemma_small_mod;
use vstd::prelude::*;

verus! {

/// The element that follows `a` and `b` in the square Fibonacci sequence
/// modulo `m`: the sum of their squares.
pub open spec fn next_square_sum(a: int, b: int, m: int) -> int {
    (modulo_product(a, a, m) + modulo_product(b, b, m)) % m
}

/// The elements from `b` on, `count + 1` of them, of the square Fibonacci
/// sequence in which `b` follows `a`.
pub open spec fn square_sequence(a: int, b: int, m: int, count: nat) -> Seq<int>
    decreases count,
{
    if count == 0 {
        seq![b]
    } else {
        seq![b] + square_sequence(b, next_square_sum(a, b, m), m, (count - 1) as nat)
    }
}

/// How many elements follow `b` when the recursion stands at `curr_depth`.
pub open spec fn elements_left(curr_depth: int, max_depth: int) -> nat {
    if curr_depth < max_depth - 2 {
        (max_depth - 2 - curr_depth) as nat
    } else {
        0
    }
}

/// What one call leaves in the vector that held `before`: the deeper calls
/// come first, then `b` is appended, and the call at depth 0 also appends `a`
/// and reverses everything.
pub open spec fn recorded(
    a: int,
    b: int,
    m: int,
    before: Seq<int>,
    curr_depth: int,
    max_depth: int,
) -> Seq<int>
    decreases elements_left(curr_depth, max_depth),
{
    let deeper = if curr_depth < max_depth - 2 {
        recorded(b, next_square_sum(a, b, m), m, before, curr_depth + 1, max_depth)
    } else {
        before
    };
    if curr_depth == 0 {
        deeper.push(b).push(a).reverse()
    } else {
        deeper.push(b)
    }
}

/// The integers of a vector.
pub open spec fn integers(v: Seq<i128>) -> Seq<int> {
    Seq::new(v.len(), |i: int| v[i] as int)
}

/// A square modulo `m` is a residue.
proof fn lemma_square_is_residue(a: int, m: int)
    requires
        m > 0,
    ensures
        0 <= modulo_product(a, a, m) < m,
{
}

/// Reverses a vector in place.
pub fn reverse_in_place(v: &mut Vec<i128>)
    ensures
        final(v)@ == old(v)@.reverse(),
{
    let n: usize = v.len();
    let ghost start = v@;
    let mut i: usize = 0;
    while i < n / 2
        invariant
            n == start.len(),
            v@.len() == n,
            i <= n / 2,
            forall|k: int| 0 <= k < i ==> v@[k] == start[n - 1 - k],
            forall|k: int| n - i <= k < n ==> v@[k] == start[n - 1 - k],
            forall|k: int| i <= k < n - i ==> v@[k] == start[k],
        decreases n / 2 - i,
    {
        let low: i128 = v[i];
        let high: i128 = v[n - 1 - i];
        v.set(i, high);
        v.set(n - 1 - i, low);
        i = i + 1;
    }
    assert(v@ =~= start.reverse());
}

/// Appends to `results` the square Fibonacci sequence in which `b` follows
/// `a`, deepest element first. The call at depth 0 then appends `a` and
/// reverses everything, so that on an empty vector it leaves the first
/// `max_depth` elements of the sequence in order.
pub fn evaluate_sq_fibo(
    a: i128,
    b: i128,
    modulo: i128,
    results: &mut Vec<i128>,
    curr_depth: i128,
    max_depth: i128,
)
    requires
        modulo > 0,
    ensures
        integers(final(results)@) == recorded(
            a as int,
            b as int,
            modulo as int,
            integers(old(results)@),
            curr_depth as int,
            max_depth as int,
        ),
        curr_depth > 0 ==> integers(final(results)@) == integers(old(results)@)
            + square_sequence(
            a as int,
            b as int,
            modulo as int,
            elements_left(curr_depth as int, max_depth as int),
        ).reverse(),
        curr_depth == 0 ==> integers(final(results)@) == seq![a as int] + square_sequence(
            a as int,
            b as int,
            modulo as int,
            elements_left(curr_depth as int, max_depth as int),
        ) + integers(old(results)@).reverse(),
    decreases elements_left(curr_depth as int, max_depth as int),
{
    let ghost before = integers(results@);
    let ghost count = elements_left(curr_depth as int, max_depth as int);
    let ghost sequence = square_sequence(a as int, b as int, modulo as int, count);
    if max_depth >= i128::MIN + 2 && curr_depth < max_depth - 2 {
        let pow_a: i128 = modulo_multiply(a, a, modulo);
        let pow_b: i128 = modulo_multiply(b, b, modulo);
        proof {
            lemma_square_is_residue(a as int, modulo as int);
            lemma_square_is_residue(b as int, modulo as int);
        }
        let gap: i128 = modulo - pow_b;
        let res: i128 = if pow_a >= gap {
            proof {
                lemma_mod_wrap_once(pow_a + pow_b, modulo as int);
            }
            pow_a - gap
        } else {
            proof {
                lemma_small_mod((pow_a + pow_b) as nat, modulo as nat);
            }
            pow_a + pow_b
        };
        evaluate_sq_fibo(b, res, modulo, results, curr_depth + 1, max_depth);
        proof {
            let inner = square_sequence(b as int, res as int, modulo as int, (count - 1) as nat);
            assert(elements_left(curr_depth + 1, max_depth as int) == count - 1);
            assert(res == next_square_sum(a as int, b as int, modulo as int));
            assert(sequence == seq![b as int] + inner);
            if curr_depth >= 0 {
                assert(integers(results@) == before + inner.reverse());
            }
        }
    }
    let ghost middle = integers(results@);
    proof {
        let deeper = if curr_depth < max_depth - 2 {
            recorded(
                b as int,
                next_square_sum(a as int, b as int, modulo as int),
                modulo as int,
                before,
                curr_depth + 1,
                max_depth as int,
            )
        } else {
            before
        };
        assert(middle == deeper);
    }
    results.push(b);
    proof {
        assert(integers(results@) =~= middle.push(b as int));
        if curr_depth < 0 {
        } else if count > 0 {
            let inner = sequence.skip(1);
            assert(sequence =~= seq![b as int] + inner);
            assert(sequence.reverse() =~= inner.reverse().push(b as int));
            assert(middle == before + inner.reverse());
            assert(middle.push(b as int) =~= before + sequence.reverse());
        } else {
            assert(middle == before);
            assert(sequence.reverse() =~= seq![b as int]);
            assert(middle.push(b as int) =~= before + sequence.reverse());
        }
        if curr_depth >= 0 {
            assert(integers(results@) == before + sequence.reverse());
        }
    }
    if curr_depth == 0 {
        results.push(a);
        let ghost unturned = results@;
        reverse_in_place(results);
        proof {
            assert(integers(unturned) =~= middle.push(b as int).push(a as int));
            assert(integers(results@) =~= middle.push(b as int).push(a as int).reverse());
            assert(integers(unturned) =~= (before + sequence.reverse()).push(a as int));
            assert(integers(results@) =~= integers(unturned).reverse());
            assert(integers(unturned).reverse() =~= seq![a as int] + sequence + before.reverse());
        }
    }
}

} // verus!
