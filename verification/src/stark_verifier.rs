use crate::constants::{DEFAULT_FIELD_SIZE, EXTENSION_FACTOR};
use crate::evaluation_domain::{linear_points, vanishing_value, EvaluationDomain};
use crate::fiat_shamir::{
    absorbed, absorbed_all, challenges_after, lemma_challenges_in_turn, Transcript,
};
use crate::finite_field::{default_field, residue, FiniteField, FiniteFieldElement};
use crate::hashing::hash_value;
use crate::merkle_tree::{combined, folded_path, hash_two_inputs, reconstruct_root};
use crate::polynomial::algebra::{eval_at, values_of};
use crate::polynomial::polynomial::Polynomial;
use vstd::arithmetic::div_mod::lemma_small_mod;
use vstd::prelude::*;

verus! {

/// What the prover answers to the verifier's sampling.
pub struct SamplingData {
    /// The sampled positions of the extended trace.
    pub sample_points: Vec<usize>,
    /// The row of the extended trace at each sampled position.
    pub sample_values: Vec<Vec<FiniteFieldElement>>,
    /// Values of the constraint polynomial at the sampled positions.
    pub constraint_values: Vec<FiniteFieldElement>,
    /// The authentication path of each sampled row.
    pub merkle_proofs: Vec<Vec<i128>>,
}

/// A proof that a trace obeys the Fibonacci recurrence.
pub struct StarkProof {
    /// The Merkle root over the rows of the extended trace.
    pub trace_commitment: i128,
    /// The number of rows of the trace.
    pub trace_size: usize,
    /// The field of the proof.
    pub field: FiniteField,
    /// The domain of the trace itself.
    pub eval_domain: EvaluationDomain,
    /// The sampled positions with rows and authentication paths.
    pub sampling_data: SamplingData,
    /// The folding layers, the widest first.
    pub fri_layers: Vec<Vec<FiniteFieldElement>>,
    /// The folding challenge of each round.
    pub fri_betas: Vec<FiniteFieldElement>,
    /// The composition polynomial `C`.
    pub composition_poly: Polynomial,
    /// The quotient polynomial `Q = C / Z_H`.
    pub quotient_poly: Polynomial,
}

/// The hash of a row: the hashes of its values are folded into the
/// accumulator zero with the two-input hash, first column first.
pub open spec fn row_hash(values: Seq<FiniteFieldElement>) -> i128
    decreases values.len(),
{
    if values.len() == 0 {
        0
    } else {
        combined(row_hash(values.drop_last()), hash_value(values.last().value))
    }
}

/// The challenges behind the sample positions: a fresh transcript absorbs
/// the commitment and the leaf count and gives out `n` challenges in the
/// default field.
pub open spec fn sampling_challenges(commitment: i128, leaf_count: usize, n: nat) -> Seq<
    FiniteFieldElement,
> {
    challenges_after(absorbed_all(0, seq![commitment, leaf_count as i128]), default_field(), n)
}

/// The positions that the commitment and the leaf count give: each sampling
/// challenge reduced modulo the leaf count.
pub open spec fn derived_sample_points(commitment: i128, leaf_count: usize, n: nat) -> Seq<usize> {
    Seq::new(
        n,
        |i: int|
            ((sampling_challenges(commitment, leaf_count, n)[i].value as int) % (
            leaf_count as int)) as usize,
    )
}

/// The folding challenges that the commitment gives: a fresh transcript
/// absorbs the commitment and gives out `n` challenges in the default field.
pub open spec fn derived_betas(commitment: i128, n: nat) -> Seq<FiniteFieldElement> {
    challenges_after(absorbed_all(0, seq![commitment]), default_field(), n)
}

/// Absorbing one value after the other is absorbing the list of them.
proof fn lemma_absorbed_in_turn(first: i128, second: i128)
    ensures
        absorbed_all(0, seq![first]) == absorbed(0, first),
        absorbed_all(0, seq![first, second]) == absorbed(absorbed(0, first), second),
{
    let one = seq![first];
    let two = seq![first, second];
    assert(one.drop_last() =~= Seq::<i128>::empty());
    assert(two.drop_last() =~= one);
    assert(absorbed_all(0, one.drop_last()) == 0);
    assert(absorbed_all(0, one) == absorbed(absorbed_all(0, one.drop_last()), one.last()));
    assert(absorbed_all(0, two) == absorbed(absorbed_all(0, two.drop_last()), two.last()));
}

/// The state of the fixed linear congruential generator after `k` steps.
pub open spec fn generator_state(k: nat) -> u64
    decreases k,
{
    if k == 0 {
        12345u64
    } else {
        generator_state((k - 1) as nat).wrapping_mul(1103515245).wrapping_add(12345)
    }
}

/// The positions that the fixed generator gives.
pub open spec fn generated_sample_points(size: usize, n: nat) -> Seq<usize> {
    Seq::new(n, |i: int| ((generator_state((i + 1) as nat) as usize) % size) as usize)
}

/// The sampled position lies on the extended domain of a trace of
/// `trace_size` rows.
pub open spec fn on_extended_domain(point: usize, trace_size: usize) -> bool {
    trace_size > 0 && trace_size * EXTENSION_FACTOR <= usize::MAX && point < trace_size
        * EXTENSION_FACTOR
}

/// The composition polynomial vanishes at the sampled position.
pub open spec fn constraint_holds_at(
    point: usize,
    trace_size: usize,
    field: FiniteField,
    composition: Seq<int>,
) -> bool {
    on_extended_domain(point, trace_size) && eval_at(
        composition,
        residue(point as int, field).value as int,
    ) % (field.prime as int) == 0
}

/// The composition polynomial vanishes at every sampled position.
pub open spec fn constraints_hold(
    points: Seq<usize>,
    trace_size: usize,
    field: FiniteField,
    composition: Seq<int>,
) -> bool {
    forall|i: int|
        0 <= i < points.len() ==> constraint_holds_at(
            #[trigger] points[i],
            trace_size,
            field,
            composition,
        )
}

/// `C(x) = Q(x) * Z_H(x)` at the sampled position, `Z_H` being the vanishing
/// polynomial of the trace domain `0, ..., trace_size - 1`.
pub open spec fn quotient_holds_at(
    point: usize,
    trace_size: usize,
    field: FiniteField,
    composition: Seq<int>,
    quotient: Seq<int>,
) -> bool {
    let x = residue(point as int, field);
    let zh = residue(
        vanishing_value(values_of(linear_points(field, trace_size as nat)), x.value as int),
        field,
    );
    on_extended_domain(point, trace_size) && residue(eval_at(composition, x.value as int), field)
        == residue(eval_at(quotient, x.value as int), field).product(zh)
}

/// `C(x) = Q(x) * Z_H(x)` at every sampled position.
pub open spec fn quotient_holds(
    points: Seq<usize>,
    trace_size: usize,
    field: FiniteField,
    composition: Seq<int>,
    quotient: Seq<int>,
) -> bool {
    forall|i: int|
        0 <= i < points.len() ==> quotient_holds_at(
            #[trigger] points[i],
            trace_size,
            field,
            composition,
            quotient,
        )
}

/// The authentication path leads from the hash of the row to the commitment.
pub open spec fn merkle_proof_holds(
    values: Seq<FiniteFieldElement>,
    path: Seq<i128>,
    commitment: i128,
) -> bool {
    path.len() > 0 && folded_path(row_hash(values), path.drop_last()) == commitment
}

/// Every sampled position has its row and an authentication path that leads
/// to the commitment.
pub open spec fn merkle_proofs_hold(data: &SamplingData, commitment: i128) -> bool {
    &&& data.merkle_proofs@.len() >= data.sample_points@.len()
    &&& data.sample_values@.len() >= data.sample_points@.len()
    &&& forall|i: int|
        0 <= i < data.sample_points@.len() ==> merkle_proof_holds(
            (#[trigger] data.sample_values@[i])@,
            data.merkle_proofs@[i]@,
            commitment,
        )
}

/// Both identities hold at every sampled position, in a usable field.
pub open spec fn sampling_holds(proof: &StarkProof) -> bool {
    &&& proof.field.wf()
    &&& constraints_hold(
        proof.sampling_data.sample_points@,
        proof.trace_size,
        proof.field,
        proof.composition_poly.values(),
    )
    &&& quotient_holds(
        proof.sampling_data.sample_points@,
        proof.trace_size,
        proof.field,
        proof.composition_poly.values(),
        proof.quotient_poly.values(),
    )
}

/// What the verifier accepts: a proof with sampling data whose rows
/// authenticate against the commitment and whose polynomials satisfy both
/// identities at every sampled position.
pub open spec fn accepts(proof: &StarkProof) -> bool {
    &&& proof.sampling_data.sample_points@.len() > 0
    &&& merkle_proofs_hold(&proof.sampling_data, proof.trace_commitment)
    &&& sampling_holds(proof)
}

/// The hash of a row of field values.
pub fn hash_row(values: &[FiniteFieldElement]) -> (result: i128)
    ensures
        result == row_hash(values@),
{
    let mut acc: i128 = 0;
    let mut c: usize = 0;
    assert(values@.take(0) =~= Seq::<FiniteFieldElement>::empty());
    while c < values.len()
        invariant
            c <= values@.len(),
            acc == row_hash(values@.take(c as int)),
        decreases values@.len() - c,
    {
        assert(values@.take(c + 1).drop_last() =~= values@.take(c as int));
        assert(values@.take(c + 1).last() == values@[c as int]);
        let h = values[c].hash();
        acc = hash_two_inputs(acc, h);
        c = c + 1;
    }
    assert(values@.take(values@.len() as int) =~= values@);
    acc
}

/// Whether a sampled position lies on the extended domain.
fn sample_on_domain(point: usize, trace_size: usize) -> (result: bool)
    ensures
        result == on_extended_domain(point, trace_size),
{
    if trace_size == 0 || trace_size > usize::MAX / EXTENSION_FACTOR {
        false
    } else {
        point < trace_size * EXTENSION_FACTOR
    }
}

/// Checks that the composition polynomial vanishes at every sampled position.
pub fn verify_fibonacci_constraints(
    sample_points: &[usize],
    trace_size: usize,
    field: FiniteField,
    composition_poly: &Polynomial,
) -> (result: bool)
    requires
        field.wf(),
    ensures
        result == constraints_hold(sample_points@, trace_size, field, composition_poly.values()),
{
    let mut i: usize = 0;
    while i < sample_points.len()
        invariant
            field.wf(),
            i <= sample_points@.len(),
            forall|k: int|
                0 <= k < i ==> constraint_holds_at(
                    #[trigger] sample_points@[k],
                    trace_size,
                    field,
                    composition_poly.values(),
                ),
        decreases sample_points@.len() - i,
    {
        let point: usize = sample_points[i];
        if !sample_on_domain(point, trace_size) {
            return false;
        }
        let x = FiniteFieldElement::new_fielded(point as i128, field);
        let value = composition_poly.evaluate(x);
        if !value.is_zero() {
            return false;
        }
        i = i + 1;
    }
    true
}

/// Checks `C(x) = Q(x) * Z_H(x)` at every sampled position.
pub fn verify_quotient_polynomial(
    sample_points: &[usize],
    trace_size: usize,
    field: FiniteField,
    composition_poly: &Polynomial,
    quotient_poly: &Polynomial,
) -> (result: bool)
    requires
        field.wf(),
    ensures
        result == quotient_holds(
            sample_points@,
            trace_size,
            field,
            composition_poly.values(),
            quotient_poly.values(),
        ),
{
    if sample_points.len() == 0 {
        return true;
    }
    if trace_size == 0 {
        assert(!quotient_holds_at(
            sample_points@[0],
            trace_size,
            field,
            composition_poly.values(),
            quotient_poly.values(),
        ));
        return false;
    }
    let trace_domain = EvaluationDomain::new_linear(field, trace_size);
    let mut i: usize = 0;
    while i < sample_points.len()
        invariant
            field.wf(),
            trace_size > 0,
            trace_domain.wf(),
            trace_domain.field == field,
            trace_domain.points@ == linear_points(field, trace_size as nat),
            i <= sample_points@.len(),
            forall|k: int|
                0 <= k < i ==> quotient_holds_at(
                    #[trigger] sample_points@[k],
                    trace_size,
                    field,
                    composition_poly.values(),
                    quotient_poly.values(),
                ),
        decreases sample_points@.len() - i,
    {
        let point: usize = sample_points[i];
        if !sample_on_domain(point, trace_size) {
            return false;
        }
        let x = FiniteFieldElement::new_fielded(point as i128, field);
        let constraint_value = composition_poly.evaluate(x);
        let vanishing_value = trace_domain.evaluate_vanishing(x);
        let quotient_value = quotient_poly.evaluate(x);
        let expected = quotient_value.multiply(vanishing_value);
        if constraint_value != expected {
            return false;
        }
        i = i + 1;
    }
    true
}

/// Checks both identities at every sampled position of the proof.
pub fn verify_random_sampling(proof: &StarkProof) -> (result: bool)
    ensures
        result == sampling_holds(proof),
{
    if proof.field.prime <= 0 {
        return false;
    }
    let constraint_valid = verify_fibonacci_constraints(
        proof.sampling_data.sample_points.as_slice(),
        proof.trace_size,
        proof.field,
        &proof.composition_poly,
    );
    let quotient_valid = verify_quotient_polynomial(
        proof.sampling_data.sample_points.as_slice(),
        proof.trace_size,
        proof.field,
        &proof.composition_poly,
        &proof.quotient_poly,
    );
    constraint_valid && quotient_valid
}

/// Checks the authentication path of every sampled row against the
/// commitment.
pub fn verify_merkle_proofs(proof: &StarkProof) -> (result: bool)
    ensures
        result == merkle_proofs_hold(&proof.sampling_data, proof.trace_commitment),
{
    let data = &proof.sampling_data;
    let n: usize = data.sample_points.len();
    if data.merkle_proofs.len() < n || data.sample_values.len() < n {
        return false;
    }
    let mut i: usize = 0;
    while i < n
        invariant
            data == &proof.sampling_data,
            n == data.sample_points@.len(),
            data.merkle_proofs@.len() >= n,
            data.sample_values@.len() >= n,
            i <= n,
            forall|k: int|
                0 <= k < i ==> merkle_proof_holds(
                    (#[trigger] data.sample_values@[k])@,
                    data.merkle_proofs@[k]@,
                    proof.trace_commitment,
                ),
        decreases n - i,
    {
        if data.merkle_proofs[i].len() == 0 {
            assert(!merkle_proof_holds(
                data.sample_values@[i as int]@,
                data.merkle_proofs@[i as int]@,
                proof.trace_commitment,
            ));
            return false;
        }
        let leaf_hash = hash_row(data.sample_values[i].as_slice());
        let reached = reconstruct_root(leaf_hash, data.merkle_proofs[i].as_slice());
        if reached != proof.trace_commitment {
            return false;
        }
        i = i + 1;
    }
    true
}

/// Sample positions from a fixed linear congruential generator.
pub fn generate_sample_points(extended_trace_size: usize, num_samples: usize) -> (result: Vec<
    usize,
>)
    requires
        extended_trace_size > 0,
    ensures
        result@ == generated_sample_points(extended_trace_size, num_samples as nat),
{
    let mut out: Vec<usize> = Vec::new();
    let mut state: u64 = 12345;
    while out.len() < num_samples
        invariant
            extended_trace_size > 0,
            out@.len() <= num_samples,
            state == generator_state(out@.len()),
            forall|k: int|
                0 <= k < out@.len() ==> out@[k] == generated_sample_points(
                    extended_trace_size,
                    num_samples as nat,
                )[k],
        decreases num_samples - out@.len(),
    {
        state = state.wrapping_mul(1103515245).wrapping_add(12345);
        let point: usize = (#[verifier::truncate] (state as usize)) % extended_trace_size;
        out.push(point);
    }
    assert(out@ =~= generated_sample_points(extended_trace_size, num_samples as nat));
    out
}

/// Sample positions derived from the commitment and the leaf count through
/// the transcript.
pub fn derive_sample_points_from_commitment(
    commitment: i128,
    leaf_count: usize,
    num_samples: usize,
) -> (result: Vec<usize>)
    requires
        leaf_count > 0,
    ensures
        result@ == derived_sample_points(commitment, leaf_count, num_samples as nat),
        forall|i: int| 0 <= i < result@.len() ==> result@[i] < leaf_count,
{
    let field = FiniteField::new(DEFAULT_FIELD_SIZE);
    let mut t = Transcript::new();
    t.absorb_i128(commitment);
    t.absorb_i128(leaf_count as i128);
    let ghost drawn = sampling_challenges(commitment, leaf_count, num_samples as nat);
    proof {
        lemma_absorbed_in_turn(commitment, leaf_count as i128);
        lemma_challenges_in_turn(t.state(), field, num_samples as nat);
        assert(drawn.skip(0) =~= drawn);
    }
    let count: i128 = leaf_count as i128;
    let mut out: Vec<usize> = Vec::new();
    while out.len() < num_samples
        invariant
            field == default_field(),
            leaf_count > 0,
            count == leaf_count,
            drawn == sampling_challenges(commitment, leaf_count, num_samples as nat),
            drawn.len() == num_samples,
            out@.len() <= num_samples,
            challenges_after(t.state(), field, (num_samples - out@.len()) as nat) == drawn.skip(
                out@.len() as int,
            ),
            forall|k: int|
                0 <= k < out@.len() ==> out@[k] == derived_sample_points(
                    commitment,
                    leaf_count,
                    num_samples as nat,
                )[k] && out@[k] < leaf_count,
        decreases num_samples - out@.len(),
    {
        proof {
            lemma_challenges_in_turn(t.state(), field, (num_samples - out@.len()) as nat);
            assert(drawn.skip(out@.len() as int)[0] == drawn[out@.len() as int]);
            assert(drawn.skip(out@.len() as int).skip(1) =~= drawn.skip(out@.len() as int + 1));
        }
        let c = t.challenge(field);
        let first: i128 = c.value % count;
        proof {
            lemma_small_mod(first as nat, count as nat);
        }
        let idx: i128 = (first + count) % count;
        proof {
            vstd::arithmetic::div_mod::lemma_mod_multiples_vanish(1, first as int, count as int);
        }
        out.push(idx as usize);
    }
    assert(out@ =~= derived_sample_points(commitment, leaf_count, num_samples as nat));
    out
}

/// Folding challenges derived from the commitment through the transcript.
pub fn derive_fri_betas_from_commitment(commitment: i128, num_rounds: usize) -> (result: Vec<
    FiniteFieldElement,
>)
    ensures
        result@ == derived_betas(commitment, num_rounds as nat),
{
    let field = FiniteField::new(DEFAULT_FIELD_SIZE);
    let mut t = Transcript::new();
    t.absorb_i128(commitment);
    let ghost drawn = derived_betas(commitment, num_rounds as nat);
    proof {
        lemma_absorbed_in_turn(commitment, 0);
        lemma_challenges_in_turn(t.state(), field, num_rounds as nat);
        assert(drawn.skip(0) =~= drawn);
    }
    let mut out: Vec<FiniteFieldElement> = Vec::new();
    while out.len() < num_rounds
        invariant
            field == default_field(),
            drawn == derived_betas(commitment, num_rounds as nat),
            drawn.len() == num_rounds,
            out@.len() <= num_rounds,
            challenges_after(t.state(), field, (num_rounds - out@.len()) as nat) == drawn.skip(
                out@.len() as int,
            ),
            forall|k: int| 0 <= k < out@.len() ==> out@[k] == drawn[k],
        decreases num_rounds - out@.len(),
    {
        proof {
            lemma_challenges_in_turn(t.state(), field, (num_rounds - out@.len()) as nat);
            assert(drawn.skip(out@.len() as int)[0] == drawn[out@.len() as int]);
            assert(drawn.skip(out@.len() as int).skip(1) =~= drawn.skip(out@.len() as int + 1));
        }
        let beta = t.challenge(field);
        out.push(beta);
    }
    assert(out@ =~= drawn);
    out
}

/// Verifies a proof: it must carry sampling data, every sampled row must
/// authenticate against the commitment, and both identities must hold at
/// every sampled position. A malformed proof is rejected.
pub fn verify_proof(proof: &StarkProof) -> (result: bool)
    ensures
        result == accepts(proof),
        proof.sampling_data.sample_points@.len() == 0 ==> !result,
{
    if proof.sampling_data.sample_points.len() == 0 {
        return false;
    }
    let merkle_valid = verify_merkle_proofs(proof);
    let constraint_valid = verify_random_sampling(proof);
    merkle_valid && constraint_valid
}

} // verus!
