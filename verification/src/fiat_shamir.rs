use crate::finite_field::{residue, FiniteField, FiniteFieldElement};
use crate::hashing::{hash, hash_value};
use vstd::prelude::*;

verus! {

/// The bits of `x` rotated to the left by one place: every bit moves up, and
/// the highest bit comes back in at the lowest place.
pub open spec fn rotated_left_once(x: i128) -> i128 {
    (((x as u128) << 1u32) | ((x as u128) >> 127u32)) as i128
}

/// Rotates the bits of `x` to the left by one place.
pub fn rotate_left_once(x: i128) -> (result: i128)
    ensures
        result == rotated_left_once(x),
{
    let bits: u128 = #[verifier::truncate] (x as u128);
    let turned: u128 = (bits << 1u32) | (bits >> 127u32);
    #[verifier::truncate] (turned as i128)
}

/// The state after `value` is absorbed: the value, rotated by one bit, is
/// added to the state and the sum is hashed.
pub open spec fn absorbed(state: i128, value: i128) -> i128 {
    hash_value(state.wrapping_add(rotated_left_once(value)))
}

/// The constant that separates challenges from absorbed data.
pub const CHALLENGE_SEPARATOR: i128 = 0x9e37_79b9_7f4a_7c15;

/// The state after a challenge is drawn.
pub open spec fn challenged(state: i128) -> i128 {
    hash_value(state.wrapping_add(CHALLENGE_SEPARATOR))
}

/// Up to fifteen bytes packed into one integer, the first byte highest.
pub open spec fn packed(chunk: Seq<u8>) -> int
    decreases chunk.len(),
{
    if chunk.len() == 0 {
        0
    } else {
        packed(chunk.drop_last()) * 256 + chunk.last()
    }
}

/// The state after `bytes` are absorbed, fifteen bytes at a time; a last
/// shorter chunk is absorbed as it is.
pub open spec fn absorbed_bytes(state: i128, bytes: Seq<u8>) -> i128
    decreases bytes.len(),
{
    if bytes.len() == 0 {
        state
    } else if bytes.len() >= 15 {
        absorbed_bytes(absorbed(state, packed(bytes.take(15)) as i128), bytes.skip(15))
    } else {
        absorbed(state, packed(bytes) as i128)
    }
}

/// The state after the values of `values` are absorbed one after the other.
pub open spec fn absorbed_all(state: i128, values: Seq<i128>) -> i128
    decreases values.len(),
{
    if values.len() == 0 {
        state
    } else {
        absorbed(absorbed_all(state, values.drop_last()), values.last())
    }
}

/// A packed chunk of `n` bytes is below `256^n`.
proof fn lemma_packed_bound(chunk: Seq<u8>)
    requires
        chunk.len() <= 15,
    ensures
        0 <= packed(chunk) < vstd::arithmetic::power::pow(256, chunk.len()),
        vstd::arithmetic::power::pow(256, chunk.len()) <= 0x1_0000_0000_0000_0000_0000_0000_0000_00,
    decreases chunk.len(),
{
    reveal(vstd::arithmetic::power::pow);
    if chunk.len() > 0 {
        lemma_packed_bound(chunk.drop_last());
    }
    lemma_pow256_bound(chunk.len());
}

/// `256^n` for `n <= 15` is at most `2^120`.
proof fn lemma_pow256_bound(n: nat)
    requires
        n <= 15,
    ensures
        0 < vstd::arithmetic::power::pow(256, n) <= 0x1_0000_0000_0000_0000_0000_0000_0000_00,
        n < 15 ==> vstd::arithmetic::power::pow(256, n) * 256
            <= 0x1_0000_0000_0000_0000_0000_0000_0000_00,
{
    reveal_with_fuel(vstd::arithmetic::power::pow, 17);
}

/// A minimal Fiat-Shamir transcript: a single-word state that absorbs data and
/// gives out challenges, each a function of everything absorbed before.
#[derive(Debug, Clone, Copy)]
pub struct Transcript {
    state: i128,
}

impl Transcript {
    /// The state of the transcript.
    pub closed spec fn state(&self) -> i128 {
        self.state
    }

    /// The empty transcript.
    pub fn new() -> (result: Self)
        ensures
            result.state() == 0,
    {
        Transcript { state: 0 }
    }

    /// Absorbs one integer.
    pub fn absorb_i128(&mut self, value: i128)
        ensures
            final(self).state() == absorbed(old(self).state(), value),
    {
        let mixed: i128 = self.state.wrapping_add(rotate_left_once(value));
        self.state = hash(mixed);
    }

    /// Absorbs a byte string in chunks of fifteen bytes.
    pub fn absorb_bytes(&mut self, bytes: &[u8])
        ensures
            final(self).state() == absorbed_bytes(old(self).state(), bytes@),
    {
        let mut acc: i128 = 0;
        let mut count: usize = 0;
        let mut i: usize = 0;
        let ghost start = self.state;
        assert(bytes@.skip(0) =~= bytes@);
        assert(bytes@.subrange(0, 0) =~= Seq::<u8>::empty());
        while i < bytes.len()
            invariant
                i <= bytes@.len(),
                count < 15,
                count <= i,
                acc == packed(bytes@.subrange(i - count, i as int)),
                absorbed_bytes(self.state, bytes@.skip(i - count)) == absorbed_bytes(
                    start,
                    bytes@,
                ),
            decreases bytes@.len() - i,
        {
            let ghost chunk = bytes@.subrange(i - count, i as int);
            let ghost longer = bytes@.subrange(i - count, i + 1);
            proof {
                lemma_packed_bound(chunk);
                lemma_pow256_bound(count as nat);
                assert(longer.drop_last() =~= chunk);
                assert(longer.last() == bytes@[i as int]);
                assert(packed(chunk) * 256 + 255 < 0x1_0000_0000_0000_0000_0000_0000_0000_00)
                    by (nonlinear_arith)
                    requires
                        0 <= packed(chunk) < vstd::arithmetic::power::pow(256, count as nat),
                        vstd::arithmetic::power::pow(256, count as nat) * 256
                            <= 0x1_0000_0000_0000_0000_0000_0000_0000_00,
                ;
            }
            acc = acc * 256 + (bytes[i] as i128);
            count = count + 1;
            i = i + 1;
            if count == 15 {
                proof {
                    let rest = bytes@.skip(i - 15);
                    assert(rest.take(15) =~= longer);
                    assert(rest.skip(15) =~= bytes@.skip(i as int));
                    assert(bytes@.subrange(i as int, i as int) =~= Seq::<u8>::empty());
                }
                self.absorb_i128(acc);
                acc = 0;
                count = 0;
            }
        }
        if count > 0 {
            proof {
                assert(bytes@.skip(i - count) =~= bytes@.subrange(i - count, i as int));
            }
            self.absorb_i128(acc);
        } else {
            proof {
                assert(bytes@.skip(i as int) =~= Seq::<u8>::empty());
            }
        }
    }

    /// Draws a challenge: the state is hashed once more behind a separator and
    /// reduced into `field`.
    pub fn challenge(&mut self, field: FiniteField) -> (result: FiniteFieldElement)
        requires
            field.wf(),
        ensures
            final(self).state() == challenged(old(self).state()),
            result == residue(final(self).state() as int, field),
            result.wf(),
    {
        self.state = hash(self.state.wrapping_add(0x9e37_79b9_7f4a_7c15));
        FiniteFieldElement::new_fielded(self.state, field)
    }
}

/// The challenges that a transcript in the state `state` gives out: `count`
/// of them, each drawn from the state that the one before left.
pub open spec fn challenges_after(state: i128, field: FiniteField, count: nat) -> Seq<
    FiniteFieldElement,
>
    decreases count,
{
    if count == 0 {
        Seq::<FiniteFieldElement>::empty()
    } else {
        seq![residue(challenged(state) as int, field)] + challenges_after(
            challenged(state),
            field,
            (count - 1) as nat,
        )
    }
}

/// The challenges come out one after the other: there are `count` of them,
/// the first is drawn from `state`, and the rest follow the state that the
/// first one leaves.
pub proof fn lemma_challenges_in_turn(state: i128, field: FiniteField, count: nat)
    ensures
        challenges_after(state, field, count).len() == count,
        count > 0 ==> challenges_after(state, field, count)[0] == residue(
            challenged(state) as int,
            field,
        ),
        count > 0 ==> challenges_after(state, field, count).skip(1) == challenges_after(
            challenged(state),
            field,
            (count - 1) as nat,
        ),
    decreases count,
{
    if count > 0 {
        let rest = challenges_after(challenged(state), field, (count - 1) as nat);
        lemma_challenges_in_turn(challenged(state), field, (count - 1) as nat);
        let all = seq![residue(challenged(state) as int, field)] + rest;
        assert(all.skip(1) =~= rest);
    }
}

} // verus!
