use cortex25519::wycheproof::{
    judge, run_eddsa_sec2pub, run_eddsa_sign, run_eddsa_verify, run_x25519_comparison, to_array32,
    CaseReport, CaseVerdict, ExpectedResult, Key, SignatureTestVector, XdhTestVector,
};

fn hex(s: &str) -> Vec<u8> {
    (0..s.len() / 2).map(|i| u8::from_str_radix(&s[2 * i..2 * i + 2], 16).unwrap()).collect()
}

fn key() -> Key {
    Key {
        curve: "edwards25519".to_string(),
        key_size: 255,
        pk: hex("d75a980182b10ab7d54bfed3c964073a0ee172f3daa62325af021a68f707511a"),
        sk: hex("9d61b19deffd5a60ba844af492ec2cc44449c5697b326919703bac031cae7f60"),
        kind: "EDDSAKeyPair".to_string(),
    }
}

fn sig_case(sig: Vec<u8>, result: ExpectedResult) -> SignatureTestVector {
    SignatureTestVector {
        tc_id: 1,
        comment: String::new(),
        msg: Vec::new(),
        sig,
        result,
        flags: Vec::new(),
    }
}

const SIG1: &str = "e5564300c360ac729086e2cc806e828a84877f1eb8e5d974d873e065224901555fb8821590a33bacc61e39701cf9b46bd25bf5f0595bbe24655141438e7a100b";

#[test]
fn judge_verdicts() {
    assert_eq!(judge(&ExpectedResult::Valid, true), CaseVerdict::Pass);
    assert_eq!(judge(&ExpectedResult::Valid, false), CaseVerdict::Fail);
    assert_eq!(judge(&ExpectedResult::Invalid, true), CaseVerdict::Fail);
    assert_eq!(judge(&ExpectedResult::Invalid, false), CaseVerdict::Pass);
    assert_eq!(judge(&ExpectedResult::Acceptable, true), CaseVerdict::Acceptable);
    assert_eq!(judge(&ExpectedResult::Acceptable, false), CaseVerdict::Acceptable);
}

#[test]
fn eddsa_verify_cases() {
    let k = key();
    let good = sig_case(hex(SIG1), ExpectedResult::Valid);
    assert_eq!(run_eddsa_verify(&k, &good), CaseReport { valid: true, verdict: CaseVerdict::Pass });
    let mut bad = hex(SIG1);
    bad[5] ^= 0x10;
    let bad = sig_case(bad, ExpectedResult::Invalid);
    assert_eq!(run_eddsa_verify(&k, &bad), CaseReport { valid: false, verdict: CaseVerdict::Pass });
    let short = sig_case(hex(SIG1)[..63].to_vec(), ExpectedResult::Valid);
    assert_eq!(run_eddsa_verify(&k, &short), CaseReport { valid: false, verdict: CaseVerdict::Fail });
}

#[test]
fn eddsa_sign_and_sec2pub_cases() {
    let k = key();
    assert!(run_eddsa_sec2pub(&k));
    assert!(run_eddsa_sign(&k, &sig_case(hex(SIG1), ExpectedResult::Valid)));
    let mut other = hex(SIG1);
    other[40] ^= 1;
    assert!(!run_eddsa_sign(&k, &sig_case(other, ExpectedResult::Valid)));
    let mut wrong = key();
    wrong.pk[3] ^= 1;
    assert!(!run_eddsa_sec2pub(&wrong));
}

#[test]
fn x25519_cases() {
    let case = XdhTestVector {
        tc_id: 1,
        comment: String::new(),
        public: hex("e6db6867583030db3594c1a424b15f7c726624ec26b3353b10a903a6d0ab1c4c"),
        private: hex("a546e36bf0527c9d3b16154b82465edd62144c0ac1fc5a18506a2244ba449ac4"),
        shared: hex("c3da55379de9c6908e94ea4df28d084f32eccf03491c71f754b4075577a28552"),
        result: ExpectedResult::Valid,
        flags: Vec::new(),
    };
    assert_eq!(
        run_x25519_comparison("curve25519", &case),
        CaseReport { valid: true, verdict: CaseVerdict::Pass }
    );
    let mut short = case;
    short.public.pop();
    short.result = ExpectedResult::Acceptable;
    assert_eq!(
        run_x25519_comparison("curve25519", &short),
        CaseReport { valid: false, verdict: CaseVerdict::Acceptable }
    );
}

#[test]
fn to_array32_lengths() {
    assert!(to_array32(&vec![0u8; 31]).is_none());
    assert_eq!(to_array32(&vec![7u8; 32]), Some([7u8; 32]));
}
