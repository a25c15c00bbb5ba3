use crate::errors::VaultError;
use crate::field::{add_p, lemma_mask_round_trip, prime, sub_p, FieldElement};
use crate::hashing::{hash_to_field_spec, lemma_hash_to_field_bounds, sha256, sha256_of};
use crate::poly::{
    all_denominators_invertible, lagrange_at_zero, lemma_poly_eval_bounds,
    lemma_round_trip_three_shares, lemma_round_trip_two_shares, poly_eval, xs_distinct_nonzero,
    Polynomial, Share,
};
use vstd::prelude::*;
use vstd::string::StringSliceAdditionalSpecFns;
use vstd::utf8::encode_utf8;

verus! {

/// The stored authentication tag of an answer: its double SHA-256,
/// `H(H(answer))`.  Distinct from the (single-hash-derived) masking key,
/// so learning a tag does not yield a key.
pub open spec fn tag_spec(ans: Seq<char>) -> Seq<u8> {
    sha256_of(sha256_of(encode_utf8(ans)))
}

/// Authenticity tag of an answer: `H(H(answer))` with SHA-256.
pub fn tag_from_answer(ans: &str) -> (r: Vec<u8>)
    ensures
        r@ == tag_spec(ans@),
        r@.len() == 32,
{
    let first = sha256(ans.as_bytes());
    sha256(first.as_slice())
}

/// Byte-string equality, element by element.
fn bytes_eq(a: &Vec<u8>, b: &Vec<u8>) -> (r: bool)
    ensures
        r <==> a@ == b@,
{
    if a.len() != b.len() {
        return false;
    }
    let mut i: usize = 0;
    while i < a.len()
        invariant
            a@.len() == b@.len(),
            i <= a@.len(),
            forall|k: int| 0 <= k < i ==> a@[k] == b@[k],
        decreases a@.len() - i,
    {
        if a[i] != b[i] {
            return false;
        }
        i = i + 1;
    }
    proof {
        assert(a@ =~= b@);
    }
    true
}

/// The persisted public artifact: one question, one authentication tag
/// and one masked share value per index.  Contains no information about
/// the secret or any answer without the full, correct answer set.
/// Immutable once constructed.
#[derive(Debug)]
pub struct Questionnair {
    pub questions: Vec<String>,
    pub tags: Vec<Vec<u8>>,
    pub points: Vec<FieldElement>,
}

impl Questionnair {
    /// Structural invariant: one tag and one masked point per question,
    /// at least two questions, every masked point canonically reduced.
    pub open spec fn wf(&self) -> bool {
        &&& self.tags@.len() == self.questions@.len()
        &&& self.points@.len() == self.questions@.len()
        &&& self.questions@.len() >= 2
        &&& forall|i: int| 0 <= i < self.points@.len() ==> (#[trigger] self.points@[i]).valid()
    }

    /// The vault was enrolled from the polynomial with coefficient
    /// sequence `c` (constant term `secret`) and the given answers: each
    /// tag is the double hash of its answer and each masked point is the
    /// share `f(i + 1)` shifted by the answer-derived key.
    pub open spec fn enrolled_with(&self, c: Seq<int>, secret: int, answers: Seq<Seq<char>>) -> bool {
        &&& c.len() == self.questions@.len()
        &&& (forall|i: int| 0 <= i < c.len() ==> 0 <= #[trigger] c[i] < prime())
        &&& c.last() == secret
        &&& answers.len() == self.questions@.len()
        &&& (forall|i: int|
            0 <= i < answers.len() ==> self.tags@[i]@ == tag_spec(#[trigger] answers[i]))
        &&& (forall|i: int|
            0 <= i < answers.len() ==> self.points@[i]@ == add_p(
                poly_eval(c, i + 1),
                hash_to_field_spec(encode_utf8(#[trigger] answers[i])),
            ))
    }

    /// Enroll a secret behind a list of questions and their correct
    /// answers.  Builds a polynomial with as many coefficients as
    /// questions — so reconstruction needs every share — takes one share
    /// per question, masks each share with a key derived from its answer,
    /// and stores only the double-hash tag of each answer.
    pub fn new(s: FieldElement, questions: Vec<String>, answers: Vec<String>) -> (r: Result<
        Questionnair,
        VaultError,
    >)
        requires
            s.valid(),
        ensures
            match r {
                Ok(v) => {
                    &&& questions@.len() == answers@.len()
                    &&& questions@.len() >= 2
                    &&& v.wf()
                    &&& v.questions@ == questions@
                    &&& exists|c: Seq<int>| v.enrolled_with(c, s@, answers.deep_view())
                },
                Err(e) => {
                    &&& (e == VaultError::MismatchedLengths || e
                        == VaultError::DegenerateThreshold)
                    &&& (e == VaultError::MismatchedLengths <==> questions@.len()
                        != answers@.len())
                    &&& (e == VaultError::DegenerateThreshold <==> (questions@.len()
                        == answers@.len() && questions@.len() < 2))
                },
            },
    {
        if questions.len() != answers.len() {
            return Err(VaultError::MismatchedLengths);
        }
        if questions.len() < 2 {
            return Err(VaultError::DegenerateThreshold);
        }
        let degree = answers.len() as u64;
        let polynomial = match Polynomial::new(degree, s) {
            Ok(p) => p,
            Err(_) => {
                proof {
                    assert(false);
                }
                return Err(VaultError::DegenerateThreshold);
            },
        };
        let shares = polynomial.share(degree);
        let mut tags: Vec<Vec<u8>> = Vec::new();
        let mut points: Vec<FieldElement> = Vec::new();
        let mut i: usize = 0;
        while i < answers.len()
            invariant
                answers@.len() == questions@.len(),
                answers@.len() >= 2,
                degree == answers@.len(),
                polynomial.valid(),
                polynomial.coeffs().len() == degree,
                polynomial.secret() == s@,
                s.valid(),
                shares@.len() == degree,
                forall|k: int|
                    0 <= k < shares@.len() ==> {
                        &&& (#[trigger] shares@[k]).valid()
                        &&& shares@[k].y@ == poly_eval(polynomial.coeffs(), k + 1)
                    },
                i <= answers@.len(),
                tags@.len() == i,
                points@.len() == i,
                forall|k: int|
                    0 <= k < i ==> (#[trigger] tags@[k])@ == tag_spec(answers@[k]@),
                forall|k: int|
                    0 <= k < i ==> (#[trigger] points@[k]).valid() && points@[k]@ == add_p(
                        poly_eval(polynomial.coeffs(), k + 1),
                        hash_to_field_spec(encode_utf8(answers@[k]@)),
                    ),
            decreases answers@.len() - i,
        {
            let key = FieldElement::hash(answers[i].as_str());
            points.push(shares[i].y.add(key));
            let tag = tag_from_answer(answers[i].as_str());
            tags.push(tag);
            i = i + 1;
        }
        let result = Questionnair { questions, tags, points };
        proof {
            let c = polynomial.coeffs();
            let avs = answers.deep_view();
            assert(avs.len() == answers@.len());
            assert forall|k: int| 0 <= k < avs.len() implies avs[k] == answers@[k]@ by {}
            assert(result.enrolled_with(c, s@, avs));
            assert(result.questions@ =~= questions@);
        }
        Ok(result)
    }
}

/// The supplied shares unmask the vault's points with the keys derived
/// from the supplied answers, at indices `1 ..= k`.
pub open spec fn unmasked_shares_match(
    q: Questionnair,
    answers: Seq<Seq<char>>,
    s: Seq<Share>,
) -> bool {
    &&& s.len() == q.points@.len()
    &&& forall|i: int| 0 <= i < s.len() ==> (#[trigger] s[i]).x@ == i + 1
    &&& forall|i: int|
        0 <= i < s.len() ==> (#[trigger] s[i]).y@ == sub_p(
            q.points@[i]@,
            hash_to_field_spec(encode_utf8(answers[i])),
        )
}

/// Every stored tag equals the double hash of the matching supplied
/// answer.
pub open spec fn all_tags_match(q: Questionnair, answers: Seq<Seq<char>>) -> bool {
    forall|i: int| 0 <= i < answers.len() ==> q.tags@[i]@ == tag_spec(#[trigger] answers[i])
}

/// The answers a vault was enrolled from always pass its tag check: the
/// tag of each answer is a function of the answer alone, so recomputing
/// it at recovery time gives the stored value back.
pub proof fn lemma_enrolled_answers_pass_tags(
    q: Questionnair,
    c: Seq<int>,
    secret: int,
    answers: Seq<Seq<char>>,
)
    requires
        q.enrolled_with(c, secret, answers),
    ensures
        all_tags_match(q, answers),
{
}

/// Vault round trip, shown for the two-question instance: when a vault
/// enrolled from two answers has its masked points unmasked with those
/// same answers, the resulting shares interpolate back exactly to the
/// enrolled secret.
pub proof fn lemma_two_question_recovery(
    q: Questionnair,
    c: Seq<int>,
    secret: int,
    answers: Seq<Seq<char>>,
    s: Seq<Share>,
)
    requires
        q.wf(),
        q.questions@.len() == 2,
        q.enrolled_with(c, secret, answers),
        unmasked_shares_match(q, answers, s),
    ensures
        lagrange_at_zero(s) == secret,
{
    let key0 = hash_to_field_spec(encode_utf8(answers[0]));
    let key1 = hash_to_field_spec(encode_utf8(answers[1]));
    lemma_hash_to_field_bounds(encode_utf8(answers[0]));
    lemma_hash_to_field_bounds(encode_utf8(answers[1]));
    lemma_poly_eval_bounds(c, 1);
    lemma_poly_eval_bounds(c, 2);
    assert(s[0].y@ == sub_p(add_p(poly_eval(c, 1), key0), key0));
    assert(s[1].y@ == sub_p(add_p(poly_eval(c, 2), key1), key1));
    lemma_mask_round_trip(poly_eval(c, 1), key0);
    lemma_mask_round_trip(poly_eval(c, 2), key1);
    lemma_round_trip_two_shares(c, s);
}

/// Vault round trip for the three-question instance, by the same
/// argument as the two-question one.
pub proof fn lemma_three_question_recovery(
    q: Questionnair,
    c: Seq<int>,
    secret: int,
    answers: Seq<Seq<char>>,
    s: Seq<Share>,
)
    requires
        q.wf(),
        q.questions@.len() == 3,
        q.enrolled_with(c, secret, answers),
        unmasked_shares_match(q, answers, s),
    ensures
        lagrange_at_zero(s) == secret,
{
    let key0 = hash_to_field_spec(encode_utf8(answers[0]));
    let key1 = hash_to_field_spec(encode_utf8(answers[1]));
    let key2 = hash_to_field_spec(encode_utf8(answers[2]));
    lemma_hash_to_field_bounds(encode_utf8(answers[0]));
    lemma_hash_to_field_bounds(encode_utf8(answers[1]));
    lemma_hash_to_field_bounds(encode_utf8(answers[2]));
    lemma_poly_eval_bounds(c, 1);
    lemma_poly_eval_bounds(c, 2);
    lemma_poly_eval_bounds(c, 3);
    assert(s[0].y@ == sub_p(add_p(poly_eval(c, 1), key0), key0));
    assert(s[1].y@ == sub_p(add_p(poly_eval(c, 2), key1), key1));
    assert(s[2].y@ == sub_p(add_p(poly_eval(c, 3), key2), key2));
    lemma_mask_round_trip(poly_eval(c, 1), key0);
    lemma_mask_round_trip(poly_eval(c, 2), key1);
    lemma_mask_round_trip(poly_eval(c, 3), key2);
    lemma_round_trip_three_shares(c, s);
}

/// Answer the questionnaire and recover the secret.  Every supplied
/// answer is first checked against its stored tag; on any mismatch the
/// whole call fails with `WrongAnswer` before any share is unmasked.
/// Only when all tags match are the masking keys recomputed, the shares
/// unmasked, and the secret interpolated at zero.  The vault is only
/// read: it stays usable for further recovery attempts.
pub fn answer(questionnair: &Questionnair, answers: Vec<String>) -> (r: Result<
    FieldElement,
    VaultError,
>)
    requires
        questionnair.wf(),
    ensures
        match r {
            Ok(v) => {
                &&& answers@.len() == questionnair.questions@.len()
                &&& all_tags_match(*questionnair, answers.deep_view())
                &&& v.valid()
                &&& exists|s: Seq<Share>|
                    {
                        &&& #[trigger] unmasked_shares_match(
                            *questionnair,
                            answers.deep_view(),
                            s,
                        )
                        &&& v@ == lagrange_at_zero(s)
                    }
            },
            Err(e) => {
                &&& (e == VaultError::MismatchedLengths || e == VaultError::WrongAnswer || e
                    == VaultError::NoninvertibleElement)
                &&& (e == VaultError::MismatchedLengths <==> answers@.len()
                    != questionnair.questions@.len())
                &&& (e == VaultError::WrongAnswer <==> (answers@.len()
                    == questionnair.questions@.len() && !all_tags_match(
                    *questionnair,
                    answers.deep_view(),
                )))
                &&& (e == VaultError::NoninvertibleElement ==> exists|s: Seq<Share>|
                    {
                        &&& #[trigger] unmasked_shares_match(
                            *questionnair,
                            answers.deep_view(),
                            s,
                        )
                        &&& !all_denominators_invertible(s)
                    })
            },
        },
{
    if answers.len() != questionnair.questions.len() {
        return Err(VaultError::MismatchedLengths);
    }
    let ghost avs = answers.deep_view();
    proof {
        assert(avs.len() == answers@.len());
        assert forall|k: int| 0 <= k < avs.len() implies avs[k] == answers@[k]@ by {}
    }
    let mut shares: Vec<Share> = Vec::new();
    let mut i: usize = 0;
    while i < answers.len()
        invariant
            questionnair.wf(),
            answers@.len() == questionnair.questions@.len(),
            avs == answers.deep_view(),
            avs.len() == answers@.len(),
            forall|k: int| 0 <= k < avs.len() ==> #[trigger] avs[k] == answers@[k]@,
            i <= answers@.len(),
            forall|k: int|
                0 <= k < i ==> questionnair.tags@[k]@ == tag_spec(#[trigger] avs[k]),
            shares@.len() == i,
            forall|k: int|
                0 <= k < i ==> {
                    &&& (#[trigger] shares@[k]).valid()
                    &&& shares@[k].x@ == k + 1
                    &&& shares@[k].y@ == sub_p(
                        questionnair.points@[k]@,
                        hash_to_field_spec(encode_utf8(avs[k])),
                    )
                },
        decreases answers@.len() - i,
    {
        let tag = tag_from_answer(answers[i].as_str());
        if !bytes_eq(&tag, &questionnair.tags[i]) {
            proof {
                assert(questionnair.tags@[i as int]@ != tag_spec(avs[i as int]));
            }
            return Err(VaultError::WrongAnswer);
        }
        let key = FieldElement::hash(answers[i].as_str());
        let x = FieldElement::new((i as u64) + 1);
        let y = questionnair.points[i].sub(key);
        shares.push(Share { x, y });
        i = i + 1;
    }
    let interpolated = Polynomial::reconstruct(&shares, questionnair.questions.len());
    proof {
        assert(xs_distinct_nonzero(shares@));
        assert(unmasked_shares_match(*questionnair, avs, shares@));
    }
    match interpolated {
        Ok(v) => Ok(v),
        Err(e) => {
            proof {
                assert(e != VaultError::MismatchedLengths);
                assert(e != VaultError::DuplicateOrZeroIndex);
                assert(e == VaultError::NoninvertibleElement);
                assert(!all_denominators_invertible(shares@));
            }
            Err(e)
        },
    }
}

} // verus!
