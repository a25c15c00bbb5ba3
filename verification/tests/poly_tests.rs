use answer_vault::errors::VaultError;
use answer_vault::field::FieldElement;
use answer_vault::poly::{Polynomial, Share};

fn linear_poly() -> Polynomial {
    // f(x) = 2x + 3: highest-degree coefficient first, secret last.
    Polynomial { coefficients: vec![FieldElement::new(2), FieldElement::new(3)] }
}

#[test]
fn new_rejects_degenerate_threshold() {
    let r = Polynomial::new(1, FieldElement::new(5));
    assert_eq!(r.unwrap_err(), VaultError::DegenerateThreshold);
    let r = Polynomial::new(0, FieldElement::new(5));
    assert_eq!(r.unwrap_err(), VaultError::DegenerateThreshold);
}

#[test]
fn new_keeps_secret_as_constant_term() {
    let p = Polynomial::new(4, FieldElement::new(42)).unwrap();
    assert_eq!(p.coefficients.len(), 4);
    assert_eq!(p.coefficients[3].value(), 42);
}

#[test]
fn evaluate_linear() {
    let p = linear_poly();
    assert_eq!(p.evaluate(&FieldElement::new(5)).value(), 13);
    assert_eq!(p.evaluate(&FieldElement::new(0)).value(), 3);
}

#[test]
fn share_linear() {
    let p = linear_poly();
    let shares = p.share(2);
    assert_eq!(shares.len(), 2);
    assert_eq!(shares[0].x.value(), 1);
    assert_eq!(shares[0].y.value(), 5);
    assert_eq!(shares[1].x.value(), 2);
    assert_eq!(shares[1].y.value(), 7);
}

#[test]
fn reconstruct_linear_exact() {
    let shares = vec![
        Share { x: FieldElement::new(1), y: FieldElement::new(5) },
        Share { x: FieldElement::new(2), y: FieldElement::new(7) },
    ];
    assert_eq!(Polynomial::reconstruct(&shares, 2).unwrap().value(), 3);
}

#[test]
fn reconstruct_quadratic_exact() {
    // f(x) = x^2 + x + 1: f(1) = 3, f(2) = 7, f(3) = 13.
    let shares = vec![
        Share { x: FieldElement::new(1), y: FieldElement::new(3) },
        Share { x: FieldElement::new(2), y: FieldElement::new(7) },
        Share { x: FieldElement::new(3), y: FieldElement::new(13) },
    ];
    assert_eq!(Polynomial::reconstruct(&shares, 3).unwrap().value(), 1);
}

#[test]
fn share_then_reconstruct_round_trip() {
    let mut k: u64 = 2;
    while k <= 6 {
        let p = Polynomial::new(k, FieldElement::new(42)).unwrap();
        let shares = p.share(k);
        let recovered = Polynomial::reconstruct(&shares, k as usize).unwrap();
        assert_eq!(recovered.value(), 42);
        k += 1;
    }
}

#[test]
fn reconstruct_rejects_duplicate_index() {
    let shares = vec![
        Share { x: FieldElement::new(1), y: FieldElement::new(5) },
        Share { x: FieldElement::new(1), y: FieldElement::new(7) },
    ];
    assert_eq!(
        Polynomial::reconstruct(&shares, 2).unwrap_err(),
        VaultError::DuplicateOrZeroIndex
    );
}

#[test]
fn reconstruct_rejects_zero_index() {
    let shares = vec![
        Share { x: FieldElement::new(0), y: FieldElement::new(5) },
        Share { x: FieldElement::new(2), y: FieldElement::new(7) },
    ];
    assert_eq!(
        Polynomial::reconstruct(&shares, 2).unwrap_err(),
        VaultError::DuplicateOrZeroIndex
    );
}

#[test]
fn reconstruct_rejects_fewer_shares_than_required() {
    // Two shares were required; one share must fail outright, never
    // interpolate to a value.
    let shares = vec![Share { x: FieldElement::new(1), y: FieldElement::new(44) }];
    assert_eq!(
        Polynomial::reconstruct(&shares, 2).unwrap_err(),
        VaultError::MismatchedLengths
    );
    let empty: Vec<Share> = vec![];
    assert_eq!(
        Polynomial::reconstruct(&empty, 2).unwrap_err(),
        VaultError::MismatchedLengths
    );
}

#[test]
fn reconstruct_rejects_extra_shares() {
    let shares = vec![
        Share { x: FieldElement::new(1), y: FieldElement::new(5) },
        Share { x: FieldElement::new(2), y: FieldElement::new(7) },
        Share { x: FieldElement::new(3), y: FieldElement::new(9) },
    ];
    assert_eq!(
        Polynomial::reconstruct(&shares, 2).unwrap_err(),
        VaultError::MismatchedLengths
    );
}
