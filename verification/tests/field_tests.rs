use answer_vault::errors::VaultError;
use answer_vault::field::{FieldElement, MODULUS};

#[test]
fn add_concrete() {
    let r = FieldElement::new(5).add(FieldElement::new(7));
    assert_eq!(r.value(), 12);
}

#[test]
fn add_wraps_at_modulus() {
    let r = FieldElement::from_u128(MODULUS - 1).add(FieldElement::new(1));
    assert_eq!(r.value(), 0);
}

#[test]
fn add_commutes() {
    let a = FieldElement::from_u128(MODULUS - 3);
    let b = FieldElement::new(999);
    assert_eq!(a.add(b).value(), b.add(a).value());
}

#[test]
fn sub_underflows_into_range() {
    let r = FieldElement::new(0).sub(FieldElement::new(1));
    assert_eq!(r.value(), MODULUS - 1);
}

#[test]
fn neg_cancels() {
    let a = FieldElement::new(5);
    assert_eq!(a.neg().add(a).value(), 0);
    assert_eq!(FieldElement::zero().neg().value(), 0);
}

#[test]
fn mul_concrete() {
    let r = FieldElement::new(6).mul(FieldElement::new(7));
    assert_eq!(r.value(), 42);
}

#[test]
fn mul_reduces_mod_prime() {
    // 2^127 * 2 == 2^128 == MODULUS + 159, so the product reduces to 159.
    let r = FieldElement::from_u128(1u128 << 127).mul(FieldElement::new(2));
    assert_eq!(r.value(), 159);
}

#[test]
fn mul_commutes() {
    let a = FieldElement::from_u128(MODULUS - 17);
    let b = FieldElement::from_u128(1u128 << 100);
    assert_eq!(a.mul(b).value(), b.mul(a).value());
}

#[test]
fn mul_associates() {
    let a = FieldElement::from_u128(MODULUS - 17);
    let b = FieldElement::from_u128(1u128 << 100);
    let c = FieldElement::new(12345678901234567);
    assert_eq!(a.mul(b).mul(c).value(), a.mul(b.mul(c)).value());
}

#[test]
fn invert_times_self_is_one() {
    let a = FieldElement::new(2);
    let inv = a.invert().unwrap();
    assert_eq!(inv.mul(a).value(), 1);
    let b = FieldElement::from_u128(MODULUS - 5);
    let binv = b.invert().unwrap();
    assert_eq!(binv.mul(b).value(), 1);
}

#[test]
fn invert_one_is_one() {
    assert_eq!(FieldElement::one().invert().unwrap().value(), 1);
}

#[test]
fn invert_zero_fails() {
    let r = FieldElement::zero().invert();
    assert_eq!(r.unwrap_err(), VaultError::NoninvertibleElement);
}

#[test]
fn new_embeds_u64() {
    assert_eq!(FieldElement::new(u64::MAX).value(), u64::MAX as u128);
}

#[test]
fn from_u128_reduces() {
    assert_eq!(FieldElement::from_u128(MODULUS).value(), 0);
    assert_eq!(FieldElement::from_u128(MODULUS + 5).value(), 5);
}

#[test]
fn random_is_canonical() {
    let a = FieldElement::random();
    assert!(a.value() < MODULUS);
    let b = FieldElement::random();
    assert!(b.value() < MODULUS);
    // Two independent 128-bit draws colliding would mean a broken source.
    assert_ne!(a.value(), b.value());
}

#[test]
fn hash_is_deterministic() {
    let a = FieldElement::hash("some answer");
    let b = FieldElement::hash("some answer");
    assert_eq!(a.value(), b.value());
    let c = FieldElement::hash("some answeR");
    assert_ne!(a.value(), c.value());
}

#[test]
fn hash_matches_sha256_vector() {
    // SHA-256("abc") starts ba7816bf8f01cfea414140de5dae2223; read as a
    // little-endian 128-bit integer that candidate is below the modulus,
    // so it is accepted on the first round.
    let r = FieldElement::hash("abc");
    assert_eq!(r.value(), 0x2322ae5dde404141eacf018fbf1678ba);
}

#[test]
fn hash_of_empty_string() {
    // SHA-256("") starts e3b0c44298fc1c149afbf4c8996fb924.
    let r = FieldElement::hash("");
    assert_eq!(r.value(), 0x24b96f99c8f4fb9a141cfc9842c4b0e3);
}
