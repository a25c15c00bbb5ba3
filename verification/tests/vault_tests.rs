use answer_vault::errors::VaultError;
use answer_vault::field::FieldElement;
use answer_vault::vault::{answer, tag_from_answer, Questionnair};

fn strings(items: &[&str]) -> Vec<String> {
    let mut out: Vec<String> = Vec::new();
    for s in items {
        out.push(String::from(*s));
    }
    out
}

#[test]
fn concrete_scenario_recovers_42() {
    let secret = FieldElement::new(42);
    let vault = Questionnair::new(
        secret,
        strings(&["a", "b", "c", "b", "c"]),
        strings(&["d", "e", "d", "e", "a"]),
    )
    .unwrap();
    let recovered = answer(&vault, strings(&["d", "e", "d", "e", "a"])).unwrap();
    assert_eq!(recovered.value(), 42);
}

#[test]
fn concrete_scenario_rejects_wrong_last_answer() {
    let secret = FieldElement::new(42);
    let vault = Questionnair::new(
        secret,
        strings(&["a", "b", "c", "b", "c"]),
        strings(&["d", "e", "d", "e", "a"]),
    )
    .unwrap();
    let r = answer(&vault, strings(&["d", "e", "d", "e", "X"]));
    assert_eq!(r.unwrap_err(), VaultError::WrongAnswer);
}

#[test]
fn round_trip_two_questions() {
    let secret = FieldElement::new(7);
    let vault =
        Questionnair::new(secret, strings(&["q1", "q2"]), strings(&["blue", "42"])).unwrap();
    let recovered = answer(&vault, strings(&["blue", "42"])).unwrap();
    assert_eq!(recovered.value(), 7);
}

#[test]
fn round_trip_large_secret() {
    let secret = FieldElement::from_u128(answer_vault::field::MODULUS - 1);
    let vault = Questionnair::new(
        secret,
        strings(&["q1", "q2", "q3", "q4"]),
        strings(&["w", "x", "y", "z"]),
    )
    .unwrap();
    let recovered = answer(&vault, strings(&["w", "x", "y", "z"])).unwrap();
    assert_eq!(recovered.value(), answer_vault::field::MODULUS - 1);
}

#[test]
fn build_rejects_mismatched_lengths() {
    let r = Questionnair::new(
        FieldElement::new(1),
        strings(&["q1", "q2"]),
        strings(&["a1"]),
    );
    assert_eq!(r.unwrap_err(), VaultError::MismatchedLengths);
}

#[test]
fn build_rejects_single_question() {
    let r = Questionnair::new(FieldElement::new(1), strings(&["q1"]), strings(&["a1"]));
    assert_eq!(r.unwrap_err(), VaultError::DegenerateThreshold);
}

#[test]
fn answer_rejects_too_few_answers() {
    let vault = Questionnair::new(
        FieldElement::new(9),
        strings(&["q1", "q2", "q3"]),
        strings(&["a1", "a2", "a3"]),
    )
    .unwrap();
    let r = answer(&vault, strings(&["a1", "a2"]));
    assert_eq!(r.unwrap_err(), VaultError::MismatchedLengths);
}

#[test]
fn any_single_wrong_answer_rejects() {
    let correct = ["red", "green", "blue"];
    for wrong_at in 0..3 {
        let vault = Questionnair::new(
            FieldElement::new(1234),
            strings(&["q1", "q2", "q3"]),
            strings(&correct),
        )
        .unwrap();
        let mut supplied = strings(&correct);
        supplied[wrong_at] = String::from("mauve");
        let r = answer(&vault, supplied);
        assert_eq!(r.unwrap_err(), VaultError::WrongAnswer);
    }
}

#[test]
fn tag_is_256_bits_and_answer_sensitive() {
    let t1 = tag_from_answer("a");
    let t2 = tag_from_answer("b");
    assert_eq!(t1.len(), 32);
    assert_eq!(t2.len(), 32);
    assert_ne!(t1, t2);
    assert_eq!(t1, tag_from_answer("a"));
}

#[test]
fn vault_is_reusable_across_recoveries() {
    let vault = Questionnair::new(
        FieldElement::new(314),
        strings(&["q1", "q2", "q3"]),
        strings(&["a1", "a2", "a3"]),
    )
    .unwrap();
    let wrong = answer(&vault, strings(&["a1", "oops", "a3"]));
    assert_eq!(wrong.unwrap_err(), VaultError::WrongAnswer);
    let first = answer(&vault, strings(&["a1", "a2", "a3"])).unwrap();
    let second = answer(&vault, strings(&["a1", "a2", "a3"])).unwrap();
    assert_eq!(first.value(), 314);
    assert_eq!(second.value(), 314);
}

#[test]
fn vault_stores_questions_in_order() {
    let vault = Questionnair::new(
        FieldElement::new(5),
        strings(&["first", "second"]),
        strings(&["x", "y"]),
    )
    .unwrap();
    assert_eq!(vault.questions.len(), 2);
    assert_eq!(vault.questions[0], "first");
    assert_eq!(vault.questions[1], "second");
    assert_eq!(vault.tags.len(), 2);
    assert_eq!(vault.points.len(), 2);
}
