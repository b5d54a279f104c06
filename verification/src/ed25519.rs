//! Ed25519 signatures with SHA-512.
pub mod custom_hash;

use vstd::prelude::*;
pub use self::custom_hash::VerifyError;
use self::custom_hash::{key_public, sign_rr, sign_s, verify_accepts, Sha512Digest};
use crate::limbs::bytes_val;

verus! {

/// Verifies the Ed25519 signature `sig` of `message` under `public_key`.
pub fn verify(message: &[u8], public_key: [u8; 32], sig: [u8; 64]) -> (r: Result<(), VerifyError>)
    ensures
        r is Ok <==> verify_accepts::<Sha512Digest>(message@, public_key@, sig@),
{
    custom_hash::verify::<Sha512Digest>(message, public_key, sig)
}

/// Signs `message` with the Ed25519 secret seed `secret_key`.
pub fn sign(message: &[u8], secret_key: [u8; 32]) -> (r: [u8; 64])
    ensures
        r@.take(32) == sign_rr::<Sha512Digest>(secret_key@, message@),
        bytes_val(r@.skip(32)) == sign_s::<Sha512Digest>(secret_key@, message@),
{
    custom_hash::sign::<Sha512Digest>(message, secret_key)
}

/// The Ed25519 public key of the secret seed `secret_key`.
pub fn secret_to_public(secret_key: [u8; 32]) -> (r: [u8; 32])
    ensures
        r@ == key_public::<Sha512Digest>(secret_key@),
{
    custom_hash::secret_to_public::<Sha512Digest>(secret_key)
}

} // verus!
