use stark_from_zero::constants::DEFAULT_FIELD_SIZE;
use stark_from_zero::fiat_shamir::Transcript;
use stark_from_zero::finite_field::FiniteField;
use stark_from_zero::hashing::hash;

#[test]
fn determinism_same_inputs_same_challenges() {
    let field = FiniteField::new(DEFAULT_FIELD_SIZE);
    let mut t1 = Transcript::new();
    let mut t2 = Transcript::new();

    t1.absorb_i128(42);
    t1.absorb_bytes(b"hello");
    let c1a = t1.challenge(field);
    let c1b = t1.challenge(field);

    t2.absorb_i128(42);
    t2.absorb_bytes(b"hello");
    let c2a = t2.challenge(field);
    let c2b = t2.challenge(field);

    assert_eq!(c1a.value, c2a.value);
    assert_eq!(c1b.value, c2b.value);
    assert_eq!(c1a.field.prime, field.prime);
    assert_eq!(c1b.field.prime, field.prime);
}

#[test]
fn different_absorbs_change_challenge() {
    let field = FiniteField::new(DEFAULT_FIELD_SIZE);
    let mut t1 = Transcript::new();
    let mut t2 = Transcript::new();

    t1.absorb_i128(1);
    let c1 = t1.challenge(field);

    t2.absorb_i128(2);
    let c2 = t2.challenge(field);

    assert_ne!(c1.value, c2.value);
}

#[test]
fn challenge_is_the_hash_of_the_state_behind_the_separator() {
    let field = FiniteField::new(DEFAULT_FIELD_SIZE);
    let mut t = Transcript::new();
    let c = t.challenge(field);
    let state = hash(0x9e37_79b9_7f4a_7c15);
    assert_eq!(c.value, ((state % DEFAULT_FIELD_SIZE) + DEFAULT_FIELD_SIZE) % DEFAULT_FIELD_SIZE);
    assert!(c.value >= 0 && c.value < DEFAULT_FIELD_SIZE);
}

#[test]
fn absorb_rotates_the_value_by_one_bit() {
    let field = FiniteField::new(DEFAULT_FIELD_SIZE);
    // Absorbing v into the empty transcript leaves hash(rotl(v, 1)).
    let mut t = Transcript::new();
    t.absorb_i128(5);
    let c = t.challenge(field);
    let state = hash(hash(10).wrapping_add(0x9e37_79b9_7f4a_7c15));
    assert_eq!(c.value, ((state % DEFAULT_FIELD_SIZE) + DEFAULT_FIELD_SIZE) % DEFAULT_FIELD_SIZE);
    // The highest bit comes back in at the lowest place.
    let mut u = Transcript::new();
    u.absorb_i128(i128::MIN);
    let d = u.challenge(field);
    let wrapped = hash(hash(1).wrapping_add(0x9e37_79b9_7f4a_7c15));
    assert_eq!(d.value, ((wrapped % DEFAULT_FIELD_SIZE) + DEFAULT_FIELD_SIZE) % DEFAULT_FIELD_SIZE);
}

#[test]
fn bytes_are_absorbed_in_chunks_of_fifteen() {
    let field = FiniteField::new(DEFAULT_FIELD_SIZE);
    let bytes: Vec<u8> = (1..=17).collect();
    let mut by_bytes = Transcript::new();
    by_bytes.absorb_bytes(&bytes);

    let mut first: i128 = 0;
    for b in 1..=15 {
        first = first * 256 + b;
    }
    let second: i128 = 16 * 256 + 17;
    let mut by_words = Transcript::new();
    by_words.absorb_i128(first);
    by_words.absorb_i128(second);

    assert_eq!(by_bytes.challenge(field).value, by_words.challenge(field).value);

    // No byte, no absorb.
    let mut empty = Transcript::new();
    empty.absorb_bytes(&[]);
    let mut fresh = Transcript::new();
    assert_eq!(empty.challenge(field).value, fresh.challenge(field).value);
}
