//! Wycheproof test vectors for Ed25519 and X25519, and the verdict on each test case.
use vstd::prelude::*;
use std::collections::HashMap;
use crate::ed25519::custom_hash::{key_public, sign_rr, sign_s, verify_accepts, Sha512Digest};
use crate::ed25519::{secret_to_public, sign, verify};
use crate::edwards::{spec_x25519, x25519};
use crate::limbs::{bytes_val, lemma_bytes_val_injective};

verus! {

/// What a test vector expects of the implementation.
pub enum ExpectedResult {
    Valid,
    Invalid,
    Acceptable,
}

/// An Ed25519 signature test case.
pub struct SignatureTestVector {
    pub tc_id: u32,
    pub comment: String,
    pub msg: Vec<u8>,
    pub sig: Vec<u8>,
    pub result: ExpectedResult,
    pub flags: Vec<String>,
}

/// An X25519 key agreement test case.
pub struct XdhTestVector {
    pub tc_id: u32,
    pub comment: String,
    pub public: Vec<u8>,
    pub private: Vec<u8>,
    pub shared: Vec<u8>,
    pub result: ExpectedResult,
    pub flags: Vec<String>,
}

/// The key pair of a group of signature test cases.
pub struct Key {
    pub curve: String,
    pub key_size: i32,
    pub pk: Vec<u8>,
    pub sk: Vec<u8>,
    pub kind: String,
}

/// A group of test cases.
pub enum TestGroup {
    EddsaVerify { key: Key, tests: Vec<SignatureTestVector> },
    XdhComp { curve: String, tests: Vec<XdhTestVector> },
}

/// A file of Wycheproof test vectors.
pub struct WycheproofTest {
    pub algorithm: String,
    pub generator_version: String,
    pub header: Vec<String>,
    pub notes: HashMap<String, String>,
    pub number_of_tests: u32,
    pub schema: String,
    pub test_groups: Vec<TestGroup>,
}

/// The verdict on one test case.
#[derive(PartialEq, Eq, Structural, Clone, Copy, Debug)]
pub enum CaseVerdict {
    /// The implementation did what the case expects.
    Pass,
    /// The implementation did not do what the case expects.
    Fail,
    /// The case accepts either outcome.
    Acceptable,
}

/// The outcome of a test case that checks validity: whether the input was found valid, and the
/// verdict.
#[derive(PartialEq, Eq, Structural, Clone, Copy, Debug)]
pub struct CaseReport {
    pub valid: bool,
    pub verdict: CaseVerdict,
}

/// The verdict on a case that expects `expected`, when the input was found `valid`.
pub open spec fn verdict_spec(expected: ExpectedResult, valid: bool) -> CaseVerdict {
    match expected {
        ExpectedResult::Valid => if valid {
            CaseVerdict::Pass
        } else {
            CaseVerdict::Fail
        },
        ExpectedResult::Invalid => if valid {
            CaseVerdict::Fail
        } else {
            CaseVerdict::Pass
        },
        ExpectedResult::Acceptable => CaseVerdict::Acceptable,
    }
}

/// The verdict on a case that expects `expected`, when the input was found `valid`.
pub fn judge(expected: &ExpectedResult, valid: bool) -> (r: CaseVerdict)
    ensures
        r == verdict_spec(*expected, valid),
{
    match expected {
        ExpectedResult::Valid => if valid {
            CaseVerdict::Pass
        } else {
            CaseVerdict::Fail
        },
        ExpectedResult::Invalid => if valid {
            CaseVerdict::Fail
        } else {
            CaseVerdict::Pass
        },
        ExpectedResult::Acceptable => CaseVerdict::Acceptable,
    }
}

/// The bytes of `v` as an array, when there are exactly 32 of them.
pub fn to_array32(v: &Vec<u8>) -> (r: Option<[u8; 32]>)
    ensures
        r is Some <==> v@.len() == 32,
        r matches Some(a) ==> a@ == v@,
{
    if v.len() != 32 {
        return None;
    }
    let mut a = [0u8; 32];
    let mut i: usize = 0;
    while i < 32
        invariant
            0 <= i <= 32,
            v@.len() == 32,
            forall|k: int| 0 <= k < i ==> a@[k] == v@[k],
        decreases 32 - i,
    {
        a[i] = v[i];
        i += 1;
    }
    proof {
        assert(a@ =~= v@);
    }
    Some(a)
}

/// The bytes of `v` as an array, when there are exactly 64 of them.
pub fn to_array64(v: &Vec<u8>) -> (r: Option<[u8; 64]>)
    ensures
        r is Some <==> v@.len() == 64,
        r matches Some(a) ==> a@ == v@,
{
    if v.len() != 64 {
        return None;
    }
    let mut a = [0u8; 64];
    let mut i: usize = 0;
    while i < 64
        invariant
            0 <= i <= 64,
            v@.len() == 64,
            forall|k: int| 0 <= k < i ==> a@[k] == v@[k],
        decreases 64 - i,
    {
        a[i] = v[i];
        i += 1;
    }
    proof {
        assert(a@ =~= v@);
    }
    Some(a)
}

/// Whether two byte strings of the same length are equal.
fn same_bytes(a: &[u8], b: &[u8]) -> (r: bool)
    requires
        a.len() == b.len(),
    ensures
        r == (a@ == b@),
{
    let mut i: usize = 0;
    while i < a.len()
        invariant
            0 <= i <= a.len(),
            a.len() == b.len(),
            forall|k: int| 0 <= k < i ==> a@[k] == b@[k],
        decreases a.len() - i,
    {
        if a[i] != b[i] {
            return false;
        }
        i += 1;
    }
    proof {
        assert(a@ =~= b@);
    }
    true
}

/// The Ed25519 verification case: the signature is valid when it is 64 bytes long and verifies
/// under the group's public key.
pub fn run_eddsa_verify(test_key: &Key, test_data: &SignatureTestVector) -> (r: CaseReport)
    requires
        test_data.sig@.len() == 64 ==> test_key.pk@.len() == 32,
    ensures
        r.valid == (test_data.sig@.len() == 64 && verify_accepts::<Sha512Digest>(
            test_data.msg@,
            test_key.pk@,
            test_data.sig@,
        )),
        r.verdict == verdict_spec(test_data.result, r.valid),
{
    let valid = match to_array64(&test_data.sig) {
        Some(sig) => {
            let pk = match to_array32(&test_key.pk) {
                Some(pk) => pk,
                None => {
                    return CaseReport { valid: false, verdict: CaseVerdict::Fail };
                },
            };
            verify(test_data.msg.as_slice(), pk, sig).is_ok()
        },
        None => false,
    };
    CaseReport { valid, verdict: judge(&test_data.result, valid) }
}

/// The Ed25519 signing case: signing the message with the group's secret seed must give the
/// case's signature.
pub fn run_eddsa_sign(test_key: &Key, test_data: &SignatureTestVector) -> (r: bool)
    requires
        test_key.sk@.len() == 32,
        test_data.sig@.len() == 64,
    ensures
        r == (test_data.sig@.take(32) == sign_rr::<Sha512Digest>(test_key.sk@, test_data.msg@)
            && bytes_val(test_data.sig@.skip(32)) == sign_s::<Sha512Digest>(
            test_key.sk@,
            test_data.msg@,
        )),
{
    let sk = to_array32(&test_key.sk).unwrap();
    let sig = to_array64(&test_data.sig).unwrap();
    let testsig = sign(test_data.msg.as_slice(), sk);
    let valid = same_bytes(&testsig, &sig);
    proof {
        if test_data.sig@.take(32) == testsig@.take(32) && bytes_val(test_data.sig@.skip(32))
            == bytes_val(testsig@.skip(32)) {
            lemma_bytes_val_injective(test_data.sig@.skip(32), testsig@.skip(32));
            assert(testsig@ =~= testsig@.take(32) + testsig@.skip(32));
            assert(sig@ =~= sig@.take(32) + sig@.skip(32));
        }
    }
    valid
}

/// The Ed25519 key case: the public key of the group's secret seed must be its public key.
pub fn run_eddsa_sec2pub(test_key: &Key) -> (r: bool)
    requires
        test_key.sk@.len() == 32,
        test_key.pk@.len() == 32,
    ensures
        r == (key_public::<Sha512Digest>(test_key.sk@) == test_key.pk@),
{
    let sk = to_array32(&test_key.sk).unwrap();
    let pk = to_array32(&test_key.pk).unwrap();
    let got_pk = secret_to_public(sk);
    same_bytes(&pk, &got_pk)
}

/// The X25519 case: the shared secret is valid when all three values are 32 bytes long and the
/// X25519 function of the private and public values gives the shared one.
pub fn run_x25519_comparison(_curve: &str, test_data: &XdhTestVector) -> (r: CaseReport)
    ensures
        r.valid == (test_data.private@.len() == 32 && test_data.public@.len() == 32
            && test_data.shared@.len() == 32 && spec_x25519(test_data.private@, test_data.public@)
            == test_data.shared@),
        r.verdict == verdict_spec(test_data.result, r.valid),
{
    let private = to_array32(&test_data.private);
    let public = to_array32(&test_data.public);
    let expect = to_array32(&test_data.shared);
    let valid = match (private, public, expect) {
        (Some(private), Some(public), Some(expect)) => {
            let shared = x25519(private, public);
            same_bytes(&shared, &expect)
        },
        _ => false,
    };
    CaseReport { valid, verdict: judge(&test_data.result, valid) }
}

} // verus!
