use crate::finite_field::{FiniteField, FiniteFieldElement};
use vstd::arithmetic::power2::{lemma2_to64, lemma_pow2_unfold, pow2};
use vstd::prelude::*;

verus! {

/// All values are canonical elements of `field`.
pub open spec fn all_in_field(values: Seq<FiniteFieldElement>, field: FiniteField) -> bool {
    forall|i: int| 0 <= i < values.len() ==> (#[trigger] values[i]).wf() && values[i].field == field
}

/// One folding round: entry `i` of the result is `v[i] + beta * v[i + N/2]`.
pub open spec fn folded(values: Seq<FiniteFieldElement>, beta: FiniteFieldElement) -> Seq<
    FiniteFieldElement,
> {
    Seq::new(
        values.len() / 2,
        |i: int| values[i].sum(beta.product(values[i + values.len() / 2])),
    )
}

/// `len` is `target` times a power of two.
pub open spec fn halves_to(len: nat, target: nat) -> bool
    decreases len,
{
    if len == target {
        true
    } else if len < target || len % 2 != 0 || len == 0 {
        false
    } else {
        halves_to(len / 2, target)
    }
}

/// The number of halvings that take `len` down to `target`.
pub open spec fn rounds_to(len: nat, target: nat) -> nat
    decreases len,
{
    if len <= target || len == 0 {
        0
    } else {
        1 + rounds_to(len / 2, target)
    }
}

/// Folding with the challenges in turn until at most `target` values are left.
pub open spec fn folded_until(
    values: Seq<FiniteFieldElement>,
    betas: Seq<FiniteFieldElement>,
    target: nat,
) -> Seq<FiniteFieldElement>
    decreases values.len(),
{
    if values.len() <= target || values.len() == 0 || betas.len() == 0 {
        values
    } else {
        folded_until(folded(values, betas[0]), betas.skip(1), target)
    }
}

/// One folding round of a vector of even length `N`: the result has `N/2`
/// entries, `v[i] + beta * v[i + N/2]`.
pub fn fold_once(values: &[FiniteFieldElement], beta: FiniteFieldElement) -> (result: Vec<
    FiniteFieldElement,
>)
    requires
        values@.len() > 0,
        values@.len() % 2 == 0,
        beta.wf(),
        all_in_field(values@, beta.field),
    ensures
        result@ == folded(values@, beta),
        result@.len() == values@.len() / 2,
        all_in_field(result@, beta.field),
{
    let half: usize = values.len() / 2;
    let mut out: Vec<FiniteFieldElement> = Vec::new();
    let mut i: usize = 0;
    while i < half
        invariant
            half == values@.len() / 2,
            values@.len() % 2 == 0,
            beta.wf(),
            all_in_field(values@, beta.field),
            i <= half,
            out@.len() == i,
            forall|k: int| 0 <= k < i ==> out@[k] == folded(values@, beta)[k],
            all_in_field(out@, beta.field),
        decreases half - i,
    {
        let a = values[i];
        let b = values[i + half];
        out.push(a.add(beta.multiply(b)));
        i = i + 1;
    }
    assert(out@ =~= folded(values@, beta));
    out
}

/// Folds with the challenges in turn until `target_len` values are left.
pub fn fold_until(
    values: &[FiniteFieldElement],
    betas: &[FiniteFieldElement],
    target_len: usize,
) -> (result: Vec<FiniteFieldElement>)
    requires
        target_len > 0,
        halves_to(values@.len(), target_len as nat),
        betas@.len() >= rounds_to(values@.len(), target_len as nat),
        exists|field: FiniteField| #[trigger]
            all_in_field(values@, field) && all_in_field(betas@, field),
    ensures
        result@ == folded_until(values@, betas@, target_len as nat),
        result@.len() == target_len,
{
    let ghost field = choose|field: FiniteField| #[trigger]
        all_in_field(values@, field) && all_in_field(betas@, field);
    let mut cur: Vec<FiniteFieldElement> = Vec::new();
    let mut c: usize = 0;
    while c < values.len()
        invariant
            c <= values@.len(),
            cur@ == values@.take(c as int),
        decreases values@.len() - c,
    {
        cur.push(values[c]);
        assert(values@.take(c as int).push(values@[c as int]) =~= values@.take(c + 1));
        c = c + 1;
    }
    assert(values@.take(values@.len() as int) =~= values@);
    let mut used: usize = 0;
    assert(betas@.skip(0) =~= betas@);
    while cur.len() > target_len
        invariant
            target_len > 0,
            used <= betas@.len(),
            halves_to(cur@.len(), target_len as nat),
            betas@.len() - used >= rounds_to(cur@.len(), target_len as nat),
            all_in_field(cur@, field),
            all_in_field(betas@, field),
            folded_until(cur@, betas@.skip(used as int), target_len as nat) == folded_until(
                values@,
                betas@,
                target_len as nat,
            ),
        decreases cur@.len(),
    {
        let beta = betas[used];
        let ghost rest = betas@.skip(used as int);
        assert(rest[0] == beta);
        assert(rest.skip(1) =~= betas@.skip(used + 1));
        cur = fold_once(cur.as_slice(), beta);
        used = used + 1;
    }
    cur
}

/// A vector that halves down to `target` is `target` times two to the number
/// of rounds.
pub proof fn lemma_rounds_reach_target(len: nat, target: nat)
    requires
        target > 0,
        halves_to(len, target),
    ensures
        len == target * pow2(rounds_to(len, target)),
    decreases len,
{
    lemma2_to64();
    if len != target {
        lemma_rounds_reach_target(len / 2, target);
        let k = rounds_to(len / 2, target);
        lemma_pow2_unfold(k + 1);
        assert(target * (2 * pow2(k)) == 2 * (target * pow2(k))) by (nonlinear_arith);
    } else {
        assert(target * 1 == target) by (nonlinear_arith);
    }
}

/// Two folding rounds in a row are one folding down to a quarter of the length.
pub proof fn lemma_two_rounds(
    values: Seq<FiniteFieldElement>,
    first: FiniteFieldElement,
    second: FiniteFieldElement,
)
    requires
        values.len() >= 4,
        values.len() % 4 == 0,
    ensures
        folded_until(values, seq![first, second], values.len() / 4) == folded(
            folded(values, first),
            second,
        ),
{
    let betas = seq![first, second];
    let target = values.len() / 4;
    let once = folded(values, first);
    let rest = betas.skip(1);
    assert(rest[0] == second);
    assert(folded_until(values, betas, target) == folded_until(once, rest, target));
    let twice = folded(once, second);
    assert(folded_until(once, rest, target) == folded_until(twice, rest.skip(1), target));
    assert(folded_until(twice, rest.skip(1), target) == twice);
}

} // verus!
