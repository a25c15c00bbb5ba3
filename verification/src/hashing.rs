use crate::field::{prime, FieldElement, MODULUS};
use vstd::prelude::*;
use vstd::arithmetic::div_mod::lemma_small_mod;
use vstd::string::StringSliceAdditionalSpecFns;

verus! {

/// What SHA-256 returns on a given byte string: a fixed function of the
/// input alone, the same in every process and on every machine.
pub uninterp spec fn sha256_of(input: Seq<u8>) -> Seq<u8>;

/// Relies on sha2's `Sha256` through the `Digest` trait: the 256-bit
/// digest of the input bytes, a function of the input alone.
#[verifier::external_body]
pub(crate) fn sha256(input: &[u8]) -> (r: Vec<u8>)
    ensures
        r@ == sha256_of(input@),
        r@.len() == 32,
{
    <sha2::Sha256 as sha2::Digest>::digest(input).to_vec()
}

/// The little-endian integer value of a byte string.
pub open spec fn le_val(s: Seq<u8>) -> int
    decreases s.len(),
{
    if s.len() == 0 {
        0
    } else {
        (s.first() as int) + 256 * le_val(s.drop_first())
    }
}

/// `256^n`, the number of byte strings of length `n`.
pub open spec fn pow256(n: nat) -> int
    decreases n,
{
    if n == 0 {
        1
    } else {
        256 * pow256((n - 1) as nat)
    }
}

proof fn lemma_pow256_pos(n: nat)
    ensures
        pow256(n) >= 1,
    decreases n,
{
    if n > 0 {
        lemma_pow256_pos((n - 1) as nat);
    }
}

/// The little-endian value of `n` bytes lies below `256^n`.
proof fn lemma_le_val_bound(s: Seq<u8>)
    ensures
        0 <= le_val(s) < pow256(s.len()),
    decreases s.len(),
{
    if s.len() > 0 {
        lemma_le_val_bound(s.drop_first());
        let rest = le_val(s.drop_first());
        let bound = pow256((s.len() - 1) as nat);
        assert(256 * rest <= 256 * (bound - 1)) by (nonlinear_arith)
            requires
                rest <= bound - 1,
        ;
    }
}

/// The little-endian value of the first 16 bytes of a digest.
fn le_u128_16(bytes: &Vec<u8>) -> (r: u128)
    requires
        bytes@.len() >= 16,
    ensures
        r as int == le_val(bytes@.subrange(0, 16)),
{
    let mut acc: u128 = 0;
    let mut i: usize = 16;
    proof {
        assert(bytes@.subrange(16, 16) =~= Seq::<u8>::empty());
    }
    while i > 0
        invariant
            i <= 16,
            bytes@.len() >= 16,
            acc as int == le_val(bytes@.subrange(i as int, 16)),
            acc < pow256((16 - i) as nat),
        decreases i,
    {
        i = i - 1;
        proof {
            lemma_le_val_bound(bytes@.subrange(i + 1, 16));
            assert(pow256(16) == 0x100000000000000000000000000000000) by {
                reveal_with_fuel(pow256, 17);
            }
            let k = (15 - i) as nat;
            assert(pow256((k + 1) as nat) == 256 * pow256(k));
            assert(pow256(k + 1) <= pow256(16)) by {
                lemma_pow256_monotone(k + 1, 16);
            }
            assert(256 * (acc as int) <= 256 * (pow256(k) - 1)) by (nonlinear_arith)
                requires
                    acc as int <= pow256(k) - 1,
            ;
        }
        acc = acc * 256 + (bytes[i] as u128);
        proof {
            assert(bytes@.subrange(i as int, 16).drop_first() =~= bytes@.subrange(i + 1, 16));
            assert(bytes@.subrange(i as int, 16).first() == bytes@[i as int]);
            assert(acc as int == le_val(bytes@.subrange(i as int, 16)));
        }
    }
    proof {
        assert(bytes@.subrange(0, 16) =~= bytes@.subrange(i as int, 16));
    }
    acc
}

proof fn lemma_pow256_monotone(m: nat, n: nat)
    requires
        m <= n,
    ensures
        pow256(m) <= pow256(n),
    decreases n,
{
    if m < n {
        lemma_pow256_monotone(m, (n - 1) as nat);
        lemma_pow256_pos((n - 1) as nat);
    }
}

/// The candidate a digest offers: its low 16 bytes read little-endian.
pub open spec fn digest_candidate(d: Seq<u8>) -> int {
    le_val(d.subrange(0, 16))
}

/// How many re-hashes the sampling loop will try before falling back to a
/// plain reduction.  A candidate is rejected with probability below
/// `2^-120`, so the bound is never reached in practice; it exists so that
/// the loop provably terminates.
pub const REHASH_LIMIT: u64 = 100000;

/// The digest after `n` re-hashes of `d`.
pub open spec fn iter_sha(d: Seq<u8>, n: nat) -> Seq<u8>
    decreases n,
{
    if n == 0 {
        d
    } else {
        iter_sha(sha256_of(d), (n - 1) as nat)
    }
}

proof fn lemma_iter_sha_snoc(d: Seq<u8>, n: nat)
    ensures
        iter_sha(d, n + 1) == sha256_of(iter_sha(d, n)),
    decreases n,
{
    if n == 0 {
        assert(iter_sha(d, 1) == iter_sha(sha256_of(d), 0));
        assert(iter_sha(d, 0) == d);
    } else {
        lemma_iter_sha_snoc(sha256_of(d), (n - 1) as nat);
        assert(iter_sha(d, n + 1) == iter_sha(sha256_of(d), n));
        assert(iter_sha(d, n) == iter_sha(sha256_of(d), (n - 1) as nat));
    }
}

/// If no digest before step `k` offered an acceptable candidate, the
/// chain value within `f` steps is decided from step `k` onward.
proof fn lemma_chain_from_iterate(d: Seq<u8>, k: nat, f: nat)
    requires
        k <= f,
        forall|j: nat| j < k ==> digest_candidate(#[trigger] iter_sha(d, j)) >= prime(),
    ensures
        chain_value(d, f) == chain_value(iter_sha(d, k), (f - k) as nat),
    decreases k,
{
    if k > 0 {
        assert(digest_candidate(iter_sha(d, 0)) >= prime());
        assert forall|j: nat| j < k - 1 implies digest_candidate(
            #[trigger] iter_sha(sha256_of(d), j),
        ) >= prime() by {
            assert(iter_sha(d, j + 1) == iter_sha(sha256_of(d), j));
            assert(digest_candidate(iter_sha(d, j + 1)) >= prime());
        }
        lemma_chain_from_iterate(sha256_of(d), (k - 1) as nat, (f - 1) as nat);
    }
}

/// The value the rejection-sampling chain starting at digest `d` settles
/// on within `fuel` re-hashes, if it settles that soon: the candidate of
/// the first digest in `d, sha256(d), sha256(sha256(d)), ...` that is
/// canonically below the modulus.
pub open spec fn chain_value(d: Seq<u8>, fuel: nat) -> Option<int>
    decreases fuel,
{
    if digest_candidate(d) < prime() {
        Some(digest_candidate(d))
    } else if fuel == 0 {
        None
    } else {
        chain_value(sha256_of(d), (fuel - 1) as nat)
    }
}

/// The field value that hashing-to-field assigns to a byte string: the
/// candidate of the first digest in the re-hash chain that is canonically
/// below the modulus, or (after `REHASH_LIMIT` rejections, which never
/// happens in practice) the last candidate reduced modulo the prime.
pub open spec fn hash_to_field_spec(input: Seq<u8>) -> int {
    if chain_value(sha256_of(input), REHASH_LIMIT as nat) is Some {
        chain_value(sha256_of(input), REHASH_LIMIT as nat)->Some_0
    } else {
        digest_candidate(iter_sha(sha256_of(input), REHASH_LIMIT as nat)) % prime()
    }
}

proof fn lemma_chain_value_bounds(d: Seq<u8>, f: nat)
    ensures
        chain_value(d, f) is Some ==> 0 <= chain_value(d, f)->Some_0 < prime(),
    decreases f,
{
    if digest_candidate(d) < prime() {
        lemma_le_val_bound(d.subrange(0, 16));
    } else if f > 0 {
        lemma_chain_value_bounds(sha256_of(d), (f - 1) as nat);
    }
}

/// Whatever hash-to-field assigns to a byte string is a canonical field
/// value.
pub proof fn lemma_hash_to_field_bounds(input: Seq<u8>)
    ensures
        0 <= hash_to_field_spec(input) < prime(),
{
    let d0 = sha256_of(input);
    lemma_chain_value_bounds(d0, REHASH_LIMIT as nat);
    if !(chain_value(d0, REHASH_LIMIT as nat) is Some) {
        vstd::arithmetic::div_mod::lemma_mod_division_less_than_divisor(
            digest_candidate(iter_sha(d0, REHASH_LIMIT as nat)),
            prime(),
        );
    }
}

impl FieldElement {
    /// Deterministic map from an arbitrary string into the field: hash the
    /// string, read the low 16 digest bytes as a little-endian candidate,
    /// accept it if it is canonically below the modulus, and otherwise
    /// re-hash the digest and retry (uniform rejection sampling).  The
    /// result is a function of the string alone, so an answer-derived key
    /// can be recomputed exactly at verification time.
    pub fn hash(x: &str) -> (r: Self)
        ensures
            r.valid(),
            r@ == hash_to_field_spec(x.spec_bytes()),
    {
        let ghost d0 = sha256_of(x.spec_bytes());
        let mut digest = sha256(x.as_bytes());
        let mut tries: u64 = 0;
        while tries < REHASH_LIMIT
            invariant
                d0 == sha256_of(x.spec_bytes()),
                digest@.len() == 32,
                tries <= REHASH_LIMIT,
                digest@ == iter_sha(d0, tries as nat),
                forall|j: nat|
                    j < tries ==> digest_candidate(#[trigger] iter_sha(d0, j)) >= prime(),
            decreases REHASH_LIMIT - tries,
        {
            let c = le_u128_16(&digest);
            if c < MODULUS {
                proof {
                    lemma_chain_from_iterate(d0, tries as nat, REHASH_LIMIT as nat);
                    assert(digest_candidate(digest@) == c as int);
                    assert(chain_value(digest@, (REHASH_LIMIT - tries) as nat) == Some(
                        c as int,
                    ));
                    assert(chain_value(d0, REHASH_LIMIT as nat) == Some(c as int));
                    assert(hash_to_field_spec(x.spec_bytes()) == c as int);
                    lemma_small_mod(c as nat, MODULUS as nat);
                }
                return FieldElement::from_u128(c);
            }
            let ghost old_tries = tries as nat;
            digest = sha256(digest.as_slice());
            tries = tries + 1;
            proof {
                lemma_iter_sha_snoc(d0, old_tries);
                assert forall|j: nat| j < tries implies digest_candidate(
                    #[trigger] iter_sha(d0, j),
                ) >= prime() by {
                    if j == old_tries {
                        assert(digest_candidate(iter_sha(d0, j)) >= prime());
                    }
                }
            }
        }
        let c = le_u128_16(&digest);
        proof {
            lemma_chain_from_iterate(d0, REHASH_LIMIT as nat, REHASH_LIMIT as nat);
            if c < MODULUS {
                lemma_small_mod(c as nat, MODULUS as nat);
            }
        }
        FieldElement::from_u128(c)
    }
}

} // verus!
