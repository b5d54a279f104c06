use cortex25519::ed25519::custom_hash::{self, Sha256Digest, Sha512Digest};
use cortex25519::ed25519::{secret_to_public, sign, verify, VerifyError};

fn hex(s: &str) -> Vec<u8> {
    (0..s.len() / 2).map(|i| u8::from_str_radix(&s[2 * i..2 * i + 2], 16).unwrap()).collect()
}

fn arr32(s: &str) -> [u8; 32] {
    hex(s).try_into().unwrap()
}

fn arr64(s: &str) -> [u8; 64] {
    hex(s).try_into().unwrap()
}

const SK1: &str = "9d61b19deffd5a60ba844af492ec2cc44449c5697b326919703bac031cae7f60";
const PK1: &str = "d75a980182b10ab7d54bfed3c964073a0ee172f3daa62325af021a68f707511a";
const SIG1: &str = "e5564300c360ac729086e2cc806e828a84877f1eb8e5d974d873e065224901555fb8821590a33bacc61e39701cf9b46bd25bf5f0595bbe24655141438e7a100b";
const SK2: &str = "4ccd089b28ff96da9db6c346ec114e0f5b8a319f35aba624da8cf6ed4fb8a6fb";
const PK2: &str = "3d4017c3e843895a92b70aa74d1b7ebc9c982ccf2ec4968cc0cd55f12af4660c";
const SIG2: &str = "92a009a9f0d4cab8720e820b5f642540a2b27b5416503f8fb3762223ebdb69da085ac1e43e15996e458f3613d0f11d8c387b2eaeb4302aeeb00d291612bb0c00";

#[test]
fn rfc8032_secret_to_public() {
    assert_eq!(secret_to_public(arr32(SK1)), arr32(PK1));
    assert_eq!(secret_to_public(arr32(SK2)), arr32(PK2));
}

#[test]
fn rfc8032_sign() {
    assert_eq!(sign(b"", arr32(SK1)), arr64(SIG1));
    assert_eq!(sign(&[0x72], arr32(SK2)), arr64(SIG2));
}

#[test]
fn rfc8032_verify() {
    assert_eq!(verify(b"", arr32(PK1), arr64(SIG1)), Ok(()));
    assert_eq!(verify(&[0x72], arr32(PK2), arr64(SIG2)), Ok(()));
}

#[test]
fn verify_rejects_other_message() {
    assert_eq!(verify(b"x", arr32(PK1), arr64(SIG1)), Err(VerifyError));
    assert_eq!(verify(&[0x73], arr32(PK2), arr64(SIG2)), Err(VerifyError));
}

#[test]
fn verify_rejects_tampered_r() {
    let mut sig = arr64(SIG1);
    sig[0] ^= 1;
    assert_eq!(verify(b"", arr32(PK1), sig), Err(VerifyError));
}

#[test]
fn verify_rejects_non_canonical_s() {
    // s + L encodes the same scalar modulo L but is refused
    let mut sig = arr64(SIG1);
    let l = arr32("edd3f55c1a631258d69cf7a2def9de1400000000000000000000000000000010");
    let mut carry = 0u16;
    for i in 0..32 {
        let t = sig[32 + i] as u16 + l[i] as u16 + carry;
        sig[32 + i] = t as u8;
        carry = t >> 8;
    }
    assert_eq!(verify(b"", arr32(PK1), sig), Err(VerifyError));
}

#[test]
fn verify_rejects_key_off_the_curve() {
    let mut pk = [0u8; 32];
    pk[0] = 2;
    assert_eq!(verify(b"", pk, arr64(SIG1)), Err(VerifyError));
}

#[test]
fn sign_then_verify() {
    let sk = arr32(SK2);
    let pk = secret_to_public(sk);
    let msg = b"the quick brown fox";
    assert_eq!(verify(msg, pk, sign(msg, sk)), Ok(()));
}

#[test]
fn sign_can_give_a_non_canonical_s() {
    // for this message the nonce scalar reduces to a value above L, and the signature's
    // second half is then not below L: verification refuses it
    let sk = arr32(SK1);
    let msg = b"msg 801";
    let sig = sign(msg, sk);
    assert_eq!(sig, arr64("edaca3de027f1e2f956d843120bd194643cd977817a0308bf6f095acb80f4d92b2e0046729b5cc12c49966fa5788885dfc607612db7545a60a170fab05ab0810"));
    assert_eq!(verify(msg, arr32(PK1), sig), Err(VerifyError));
}

#[test]
fn custom_hash_sha512_matches_default() {
    assert_eq!(custom_hash::sign::<Sha512Digest>(b"", arr32(SK1)), arr64(SIG1));
    assert_eq!(custom_hash::secret_to_public::<Sha512Digest>(arr32(SK1)), arr32(PK1));
}

#[test]
fn custom_hash_sha256() {
    let sk = arr32(SK1);
    let pk = custom_hash::secret_to_public::<Sha256Digest>(sk);
    assert_eq!(pk, arr32("fdfe85aaf0437ad1b178a5eac00f73495ebebb64d8ae4358ce6a17f141baa786"));
    let sig = custom_hash::sign::<Sha256Digest>(b"abc", sk);
    assert_eq!(sig, arr64("e9444045687c30f739f08045190c36b02c7a5773f345400be4f6b2aba0a9bf85010b36292ab65bb1b797d0832ee0e5b835744c755cb9a5c2d16fef16809e7f03"));
    assert_eq!(custom_hash::verify::<Sha256Digest>(b"abc", pk, sig), Ok(()));
    assert_eq!(custom_hash::verify::<Sha256Digest>(b"abd", pk, sig), Err(VerifyError));
}

#[test]
fn key_info_parts() {
    let i = custom_hash::key_info::<Sha512Digest>(arr32(SK1));
    assert_eq!(i.public_key, arr32(PK1));
}
