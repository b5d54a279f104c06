//! Ed25519 signing and verification over a hash function of the caller's choice.
use vstd::prelude::*;
use crate::edwards::{
    basepoint_encoding, ed25519_basepoint_point, spec_decompress, spec_point_add, spec_point_neg,
    spec_scalar_mul, CompressedEdwardsY,
};
use crate::limbs::{
    bpow, bytes_val, lemma_bytes_val_bound, lemma_bytes_val_split, lemma_bytes_val_take_step,
};
use crate::scalar::{
    group_order, law_add_canonical, law_add_congruent, law_wide_reduction, lemma_mont_ok, mont_spec, r_const, rr_const, sub_spec, Scalar,
};
use crate::limbs::rpow;

verus! {

/// The SHA-512 digest of `data` (`sha2::Sha512`).
pub uninterp spec fn spec_sha512(data: Seq<u8>) -> Seq<u8>;

/// The SHA-256 digest of `data` (`sha2::Sha256`).
pub uninterp spec fn spec_sha256(data: Seq<u8>) -> Seq<u8>;

/// `sha2::Sha512::digest`. Claimed: the 64 bytes are the name `spec_sha512` of `data`.
#[verifier::external_body]
fn sha512_digest(data: &[u8]) -> (r: [u8; 64])
    ensures
        r@ == spec_sha512(data@),
{
    let out = <sha2::Sha512 as sha2::Digest>::digest(data);
    let mut r = [0u8; 64];
    r.copy_from_slice(&out);
    r
}

/// `sha2::Sha256::digest`. Claimed: the 32 bytes are the name `spec_sha256` of `data`.
#[verifier::external_body]
fn sha256_digest(data: &[u8]) -> (r: [u8; 32])
    ensures
        r@ == spec_sha256(data@),
{
    let out = <sha2::Sha256 as sha2::Digest>::digest(data);
    let mut r = [0u8; 32];
    r.copy_from_slice(&out);
    r
}

/// Appends the bytes of `s` to `v`.
fn append_bytes(v: &mut Vec<u8>, s: &[u8])
    ensures
        final(v)@ == old(v)@ + s@,
{
    let ghost v0 = v@;
    let mut i: usize = 0;
    while i < s.len()
        invariant
            0 <= i <= s.len(),
            v@ == v0 + s@.take(i as int),
        decreases s.len() - i,
    {
        v.push(s[i]);
        proof {
            assert(s@.take(i + 1) =~= s@.take(i as int).push(s@[i as int]));
        }
        i += 1;
    }
    proof {
        assert(s@.take(s.len() as int) =~= s@);
    }
}

/// The bytes of `s` in a new vector.
fn bytes_to_vec(s: &[u8]) -> (r: Vec<u8>)
    ensures
        r@ == s@,
{
    let mut v: Vec<u8> = Vec::new();
    append_bytes(&mut v, s);
    proof {
        assert(Seq::<u8>::empty() + s@ =~= s@);
    }
    v
}

/// The first 32 bytes of `s` in an array.
fn bytes_to_array32(s: &[u8]) -> (r: [u8; 32])
    requires
        s.len() >= 32,
    ensures
        r@ == s@.take(32),
{
    let mut r = [0u8; 32];
    let mut i: usize = 0;
    while i < 32
        invariant
            0 <= i <= 32,
            s.len() >= 32,
            forall|k: int| 0 <= k < i ==> r@[k] == s@[k],
        decreases 32 - i,
    {
        r[i] = s[i];
        i += 1;
    }
    proof {
        assert(r@ =~= s@.take(32));
    }
    r
}

/// The bytes `32 .. 64` of `s` in an array.
fn bytes_to_array32_high(s: &[u8]) -> (r: [u8; 32])
    requires
        s.len() == 64,
    ensures
        r@ == s@.skip(32),
{
    let mut r = [0u8; 32];
    let mut i: usize = 0;
    while i < 32
        invariant
            0 <= i <= 32,
            s.len() == 64,
            forall|k: int| 0 <= k < i ==> r@[k] == s@[k + 32],
        decreases 32 - i,
    {
        r[i] = s[i + 32];
        i += 1;
    }
    proof {
        assert(r@ =~= s@.skip(32));
    }
    r
}

/// The first 64 bytes of `s` in an array.
fn bytes_to_array64(s: &[u8]) -> (r: [u8; 64])
    requires
        s.len() == 64,
    ensures
        r@ == s@,
{
    let mut r = [0u8; 64];
    let mut i: usize = 0;
    while i < 64
        invariant
            0 <= i <= 64,
            s.len() == 64,
            forall|k: int| 0 <= k < i ==> r@[k] == s@[k],
        decreases 64 - i,
    {
        r[i] = s[i];
        i += 1;
    }
    proof {
        assert(r@ =~= s@);
    }
    r
}

/// Whether two 32-byte strings are equal.
fn bytes_eq(a: &[u8; 32], b: &[u8; 32]) -> (r: bool)
    ensures
        r == (a@ == b@),
{
    let mut i: usize = 0;
    while i < 32
        invariant
            0 <= i <= 32,
            forall|k: int| 0 <= k < i ==> a@[k] == b@[k],
        decreases 32 - i,
    {
        if a[i] != b[i] {
            return false;
        }
        i += 1;
    }
    proof {
        assert(a@ =~= b@);
    }
    true
}

/// A hash function for Ed25519, with what its digest length calls for: how a digest becomes a
/// scalar, and how a secret seed becomes the secret scalar bytes and the nonce seed.
pub trait Ed25519DigestLength {
    /// The digest of `data`.
    spec fn spec_digest(data: Seq<u8>) -> Seq<u8>;

    /// The length of a digest.
    spec fn spec_output_len() -> nat;

    /// The scalar that a digest is reduced to.
    spec fn spec_hash_to_scalar(hash: Seq<u8>) -> nat;

    /// The secret scalar bytes and the nonce seed derived from a secret seed.
    spec fn spec_hash_32x2(seed: Seq<u8>) -> (Seq<u8>, Seq<u8>);

    /// Hashes `data`.
    fn digest(data: &[u8]) -> (r: Vec<u8>)
        ensures
            r@ == Self::spec_digest(data@),
            r@.len() == Self::spec_output_len(),
    ;

    /// Reduces a digest to a scalar.
    fn hash_to_scalar(hash: &[u8]) -> (r: Scalar)
        requires
            hash@.len() == Self::spec_output_len(),
        ensures
            r@ == Self::spec_hash_to_scalar(hash@),
            r@ < r_const() + rr_const(),
    ;

    /// Derives the secret scalar bytes and the nonce seed from a secret seed.
    fn hash_32x2(seed: [u8; 32]) -> (r: ([u8; 32], [u8; 32]))
        ensures
            (r.0@, r.1@) == Self::spec_hash_32x2(seed@),
    ;
}

/// SHA-512, with 64-byte digests.
pub struct Sha512Digest;

/// SHA-256, with 32-byte digests.
pub struct Sha256Digest;

impl Ed25519DigestLength for Sha512Digest {
    open spec fn spec_digest(data: Seq<u8>) -> Seq<u8> {
        spec_sha512(data)
    }

    open spec fn spec_output_len() -> nat {
        64
    }

    open spec fn spec_hash_to_scalar(hash: Seq<u8>) -> nat {
        mont_spec(bytes_val(hash.take(32)) * r_const() + bytes_val(hash.skip(32)) * rr_const())
    }

    open spec fn spec_hash_32x2(seed: Seq<u8>) -> (Seq<u8>, Seq<u8>) {
        (spec_sha512(seed).take(32), spec_sha512(seed).skip(32))
    }

    fn digest(data: &[u8]) -> (r: Vec<u8>) {
        let d = sha512_digest(data);
        bytes_to_vec(&d)
    }

    fn hash_to_scalar(hash: &[u8]) -> (r: Scalar) {
        let h = bytes_to_array64(hash);
        Scalar::from_bytes_mod_order_wide(&h)
    }

    fn hash_32x2(seed: [u8; 32]) -> (r: ([u8; 32], [u8; 32])) {
        let res = sha512_digest(&seed);
        let a = bytes_to_array32(&res);
        let b = bytes_to_array32_high(&res);
        (a, b)
    }
}

impl Ed25519DigestLength for Sha256Digest {
    open spec fn spec_digest(data: Seq<u8>) -> Seq<u8> {
        spec_sha256(data)
    }

    open spec fn spec_output_len() -> nat {
        32
    }

    open spec fn spec_hash_to_scalar(hash: Seq<u8>) -> nat {
        bytes_val(hash) % group_order()
    }

    open spec fn spec_hash_32x2(seed: Seq<u8>) -> (Seq<u8>, Seq<u8>) {
        (spec_sha256(seq![0x01u8] + seed), spec_sha256(seq![0x02u8] + seed))
    }

    fn digest(data: &[u8]) -> (r: Vec<u8>) {
        let d = sha256_digest(data);
        bytes_to_vec(&d)
    }

    fn hash_to_scalar(hash: &[u8]) -> (r: Scalar) {
        let h = bytes_to_array32(hash);
        proof {
            assert(hash@.take(32) =~= hash@);
        }
        let r = Scalar::from_bytes_mod_order(h);
        proof {
            vstd::arithmetic::div_mod::lemma_mod_pos_bound(bytes_val(hash@) as int, group_order() as int);
        }
        r
    }

    fn hash_32x2(seed: [u8; 32]) -> (r: ([u8; 32], [u8; 32])) {
        let mut buf: Vec<u8> = Vec::new();
        buf.push(0x01u8);
        append_bytes(&mut buf, &seed);
        let a = sha256_digest(buf.as_slice());
        let mut buf: Vec<u8> = Vec::new();
        buf.push(0x02u8);
        append_bytes(&mut buf, &seed);
        let b = sha256_digest(buf.as_slice());
        proof {
            assert(seq![0x01u8] + seed@ =~= Seq::<u8>::empty().push(0x01u8) + seed@);
            assert(seq![0x02u8] + seed@ =~= Seq::<u8>::empty().push(0x02u8) + seed@);
        }
        (a, b)
    }
}

/// The error of a signature that does not verify.
#[derive(PartialEq, Eq, Structural, Clone, Copy, Debug)]
pub struct VerifyError;

/// The secret scalar bytes with the three low bits and the top bit cleared and bit 254 set.
pub open spec fn clamp(a: Seq<u8>) -> Seq<u8> {
    a.update(0, a[0] & 248u8).update(31, (a[31] & 127u8) | 64u8)
}

/// The secret scalar of a secret seed.
pub open spec fn key_scalar<D: Ed25519DigestLength>(secret_key: Seq<u8>) -> nat {
    bytes_val(clamp(D::spec_hash_32x2(secret_key).0)) % group_order()
}

/// The public key of a secret seed: the encoding of `[a]B` for its secret scalar `a`.
pub open spec fn key_public<D: Ed25519DigestLength>(secret_key: Seq<u8>) -> Seq<u8> {
    spec_scalar_mul(key_scalar::<D>(secret_key), basepoint_encoding())
}

/// The nonce scalar `r` of a signature.
pub open spec fn sign_r<D: Ed25519DigestLength>(secret_key: Seq<u8>, message: Seq<u8>) -> nat {
    D::spec_hash_to_scalar(D::spec_digest(D::spec_hash_32x2(secret_key).1 + message))
}

/// The first half of a signature: the encoding of `[r]B`.
pub open spec fn sign_rr<D: Ed25519DigestLength>(secret_key: Seq<u8>, message: Seq<u8>) -> Seq<u8> {
    spec_scalar_mul(sign_r::<D>(secret_key, message), basepoint_encoding())
}

/// The challenge scalar `k` of a signature.
pub open spec fn sign_k<D: Ed25519DigestLength>(secret_key: Seq<u8>, message: Seq<u8>) -> nat {
    D::spec_hash_to_scalar(
        D::spec_digest(sign_rr::<D>(secret_key, message) + key_public::<D>(secret_key) + message),
    )
}

/// The second half of a signature: `r + (k * a mod L)`, reduced as `Scalar::add` does.
pub open spec fn sign_s<D: Ed25519DigestLength>(secret_key: Seq<u8>, message: Seq<u8>) -> nat {
    sub_spec(
        (sign_r::<D>(secret_key, message) + (sign_k::<D>(secret_key, message) * key_scalar::<D>(
            secret_key,
        )) % group_order()) % rpow(8),
        group_order(),
    )
}

/// Whether `sig` verifies for `message` under `public_key`: its second half is a canonical
/// scalar `s`, the key decodes to a point `A`, and `[k](-A) + [s]B` encodes to the first half
/// `R`, where `k` is the digest of `R`, the key and the message, reduced to a scalar.
pub open spec fn verify_accepts<D: Ed25519DigestLength>(
    message: Seq<u8>,
    public_key: Seq<u8>,
    sig: Seq<u8>,
) -> bool {
    let r = sig.take(32);
    let s = sig.skip(32);
    &&& bytes_val(s) < group_order()
    &&& spec_decompress(public_key) is Some
    &&& spec_point_add(
        spec_scalar_mul(
            D::spec_hash_to_scalar(D::spec_digest(r + public_key + message)),
            spec_point_neg(spec_decompress(public_key)->0),
        ),
        spec_scalar_mul(bytes_val(s), basepoint_encoding()),
    ) == r
}

/// The bound `2^255` below which scalars multiply points.
pub open spec fn scalar_mul_bound() -> nat {
    0x8000_0000_0000_0000_0000_0000_0000_0000_0000_0000_0000_0000_0000_0000_0000_0000nat
}

proof fn lemma_scalar_bounds()
    ensures
        group_order() < r_const() + rr_const(),
        r_const() + rr_const() < scalar_mul_bound(),
{
}

/// Verifies `sig` for `message` under `public_key`, with the hash function `D`.
pub fn verify<D: Ed25519DigestLength>(message: &[u8], public_key: [u8; 32], sig: [u8; 64]) -> (r:
    Result<(), VerifyError>)
    ensures
        r is Ok <==> verify_accepts::<D>(message@, public_key@, sig@),
{
    let sig_r = bytes_to_array32(&sig);
    let sig_s_bytes = bytes_to_array32_high(&sig);
    proof {
        lemma_scalar_bounds();
    }
    // Check S is canonical (smaller than the group order)
    let sig_s = match Scalar::from_canonical_bytes(sig_s_bytes) {
        Some(s) => s,
        None => return Err(VerifyError),
    };
    let mut buf: Vec<u8> = Vec::new();
    append_bytes(&mut buf, &sig_r);
    append_bytes(&mut buf, &public_key);
    append_bytes(&mut buf, message);
    let h = D::digest(buf.as_slice());
    let k = D::hash_to_scalar(h.as_slice());
    let pubkey = match CompressedEdwardsY(public_key).decompress() {
        Some(p) => p,
        None => return Err(VerifyError),
    };
    let pubkey_neg = pubkey.neg();
    let res = k.mul_point(pubkey_neg).add(sig_s.mul_point(ed25519_basepoint_point()));
    let res_compressed = res.compress().0;
    proof {
        assert(Seq::<u8>::empty() + sig_r@ + public_key@ + message@ =~= sig_r@ + public_key@ + message@);
    }
    if !bytes_eq(&res_compressed, &sig_r) {
        return Err(VerifyError);
    }
    Ok(())
}

/// What a secret seed gives: the secret scalar, the nonce seed and the public key.
pub struct KeyInfo {
    pub secret_scalar: Scalar,
    pub secret_nonce: [u8; 32],
    pub public_key: [u8; 32],
}

/// Derives the secret scalar, the nonce seed and the public key from a secret seed.
pub fn key_info<D: Ed25519DigestLength>(secret_key: [u8; 32]) -> (r: KeyInfo)
    ensures
        r.secret_scalar@ == key_scalar::<D>(secret_key@),
        r.secret_nonce@ == D::spec_hash_32x2(secret_key@).1,
        r.public_key@ == key_public::<D>(secret_key@),
{
    // Derive scalar+nonce from secret key seed
    let (mut secret_scalar, secret_nonce) = D::hash_32x2(secret_key);
    let ghost a0 = secret_scalar@;
    secret_scalar[0] = secret_scalar[0] & 248u8;
    secret_scalar[31] = secret_scalar[31] & 127u8;
    secret_scalar[31] = secret_scalar[31] | 64u8;
    proof {
        assert(secret_scalar@ =~= clamp(a0));
    }
    let secret_scalar = Scalar::from_bytes_mod_order(secret_scalar);
    // Derive public key
    proof {
        lemma_scalar_bounds();
        vstd::arithmetic::div_mod::lemma_mod_pos_bound(bytes_val(clamp(a0)) as int, group_order() as int);
    }
    let public_key_point = secret_scalar.mul_point(ed25519_basepoint_point());
    let public_key = public_key_point.compress().0;
    KeyInfo { public_key, secret_nonce, secret_scalar }
}

/// Signs `message` with the secret seed `secret_key`, with the hash function `D`.
pub fn sign<D: Ed25519DigestLength>(message: &[u8], secret_key: [u8; 32]) -> (r: [u8; 64])
    ensures
        r@.take(32) == sign_rr::<D>(secret_key@, message@),
        bytes_val(r@.skip(32)) == sign_s::<D>(secret_key@, message@),
{
    let i = key_info::<D>(secret_key);
    proof {
        lemma_scalar_bounds();
    }
    // First hash
    let mut buf: Vec<u8> = Vec::new();
    append_bytes(&mut buf, &i.secret_nonce);
    append_bytes(&mut buf, message);
    proof {
        assert(Seq::<u8>::empty() + i.secret_nonce@ + message@ =~= i.secret_nonce@ + message@);
    }
    let h = D::digest(buf.as_slice());
    let r = D::hash_to_scalar(h.as_slice());
    let r_point = r.mul_point(ed25519_basepoint_point());
    let rr = r_point.compress().0;
    // Second hash
    let mut buf: Vec<u8> = Vec::new();
    append_bytes(&mut buf, &rr);
    append_bytes(&mut buf, &i.public_key);
    append_bytes(&mut buf, message);
    proof {
        assert(Seq::<u8>::empty() + rr@ + i.public_key@ + message@ =~= rr@ + i.public_key@ + message@);
    }
    let h = D::digest(buf.as_slice());
    let k = D::hash_to_scalar(h.as_slice());
    // Magic calculation
    proof {
        let w = rpow(8);
        crate::limbs::lemma_rpow_values();
        let kv = k@;
        let av = i.secret_scalar@;
        assert(kv * av < w * (w - group_order())) by (nonlinear_arith)
            requires
                kv < r_const() + rr_const(),
                av < group_order(),
                (r_const() + rr_const()) * group_order() < w * (w - group_order()),
        ;
        lemma_mont_ok(kv * av);
    }
    let s = r.add(k.mul(i.secret_scalar));
    let s_bytes = s.as_bytes();
    let mut signature = [0u8; 64];
    let mut j: usize = 0;
    while j < 32
        invariant
            0 <= j <= 32,
            forall|x: int| 0 <= x < j ==> signature@[x] == rr@[x] && signature@[x + 32] == s_bytes@[x],
        decreases 32 - j,
    {
        signature[j] = rr[j];
        signature[j + 32] = s_bytes[j];
        j += 1;
    }
    proof {
        assert(signature@.take(32) =~= rr@);
        assert(signature@.skip(32) =~= s_bytes@);
    }
    signature
}

/// The public key of the secret seed `secret_key`, with the hash function `D`.
pub fn secret_to_public<D: Ed25519DigestLength>(secret_key: [u8; 32]) -> (r: [u8; 32])
    ensures
        r@ == key_public::<D>(secret_key@),
{
    key_info::<D>(secret_key).public_key
}

/// Law: the second half of a signature is a canonical scalar (below `L`) whenever its nonce
/// scalar `r` is; verification refuses any other second half.
pub proof fn law_sign_s_canonical<D: Ed25519DigestLength>(secret_key: Seq<u8>, message: Seq<u8>)
    requires
        sign_r::<D>(secret_key, message) < group_order(),
    ensures
        sign_s::<D>(secret_key, message) < group_order(),
{
    let r = sign_r::<D>(secret_key, message);
    let x = (sign_k::<D>(secret_key, message) * key_scalar::<D>(secret_key)) % group_order();
    vstd::arithmetic::div_mod::lemma_mod_pos_bound(
        (sign_k::<D>(secret_key, message) * key_scalar::<D>(secret_key)) as int,
        group_order() as int,
    );
    law_add_canonical(r, x);
}

/// Law: verifying a signature made by `sign` with the matching public key comes down to the
/// curve equation `[k](-A) + [s]B = [r]B`, for the challenge `k` and second half `s` that
/// `sign` computed, and `A` the decoded public key, when `s` is canonical and the key decodes.
pub proof fn law_verify_of_sign<D: Ed25519DigestLength>(
    secret_key: Seq<u8>,
    message: Seq<u8>,
    sig: Seq<u8>,
)
    requires
        sig.len() == 64,
        sig.take(32) == sign_rr::<D>(secret_key, message),
        bytes_val(sig.skip(32)) == sign_s::<D>(secret_key, message),
    ensures
        verify_accepts::<D>(message, key_public::<D>(secret_key), sig) <==> {
            let pk = key_public::<D>(secret_key);
            &&& sign_s::<D>(secret_key, message) < group_order()
            &&& spec_decompress(pk) is Some
            &&& spec_point_add(
                spec_scalar_mul(sign_k::<D>(secret_key, message), spec_point_neg(spec_decompress(pk)->0)),
                spec_scalar_mul(sign_s::<D>(secret_key, message), basepoint_encoding()),
            ) == sign_rr::<D>(secret_key, message)
        },
{
}

/// The scalar that 64 digest bytes `h` reduce to: the low half times `R` plus the high half times
/// `RR`, Montgomery-reduced (what `Scalar::from_bytes_mod_order_wide` computes; congruent to
/// the little-endian value of `h` modulo `L`, see `law_wide_reduction`).
pub open spec fn wide_scalar(h: Seq<u8>) -> nat {
    mont_spec(bytes_val(h.take(32)) * r_const() + bytes_val(h.skip(32)) * rr_const())
}

/// `2^254`.
pub open spec fn two_pow_254() -> nat {
    0x4000_0000_0000_0000_0000_0000_0000_0000_0000_0000_0000_0000_0000_0000_0000_0000nat
}

/// Law (RFC 8032 5.1.5 step 2): clamping 32 bytes clears their three low bits and bit 255 and
/// sets bit 254, and keeps every other bit: as a number, `2^254 + (a mod 2^254) - (a mod 8)`.
/// Its top byte is below 128 and at least 64, and its low byte is a multiple of 8.
pub proof fn law_clamp(a: Seq<u8>)
    requires
        a.len() == 32,
    ensures
        bytes_val(clamp(a)) == two_pow_254() + bytes_val(a) % two_pow_254() - bytes_val(a) % 8,
        two_pow_254() <= bytes_val(clamp(a)) < 2 * two_pow_254(),
        bytes_val(clamp(a)) % 8 == 0,
        64 <= clamp(a)[31] < 128,
        clamp(a)[0] % 8 == 0,
{
    let c = clamp(a);
    reveal_with_fuel(bpow, 32);
    let p = bpow(31);
    assert(p == 0x100_0000_0000_0000_0000_0000_0000_0000_0000_0000_0000_0000_0000_0000_0000_0000nat);
    assert(p == 256 * bpow(30));
    assert(bpow(30) == 0x1_0000_0000_0000_0000_0000_0000_0000_0000_0000_0000_0000_0000_0000_0000_0000nat);
    assert(bpow(1) == 256 && bpow(0) == 1);
    // the value of 32 bytes: low byte, 30 middle bytes, top byte
    lemma_bytes_val_take_step(a, 31);
    lemma_bytes_val_take_step(c, 31);
    assert(a.take(32) =~= a);
    assert(c.take(32) =~= c);
    let at = a.take(31);
    let ct = c.take(31);
    lemma_bytes_val_split(at, 1);
    lemma_bytes_val_split(ct, 1);
    lemma_bytes_val_take_step(at, 0);
    lemma_bytes_val_take_step(ct, 0);
    assert(at.take(0).len() == 0 && ct.take(0).len() == 0);
    assert(bytes_val(at.take(0)) == 0 && bytes_val(ct.take(0)) == 0);
    assert(ct.skip(1) =~= at.skip(1));
    let mid = bytes_val(at.skip(1));
    lemma_bytes_val_bound(at.skip(1));
    let a0 = a[0];
    let a31 = a[31];
    let c0 = c[0];
    let c31 = c[31];
    assert(c0 == a0 & 248u8 && c31 == (a31 & 127u8) | 64u8);
    assert(c0 == a0 - a0 % 8) by (bit_vector)
        requires
            c0 == a0 & 248u8,
    ;
    assert(c31 == 64 + a31 % 64) by (bit_vector)
        requires
            c31 == (a31 & 127u8) | 64u8,
    ;
    let v = bytes_val(a);
    let cv = bytes_val(c);
    assert(at[0] == a0 && ct[0] == c0);
    let x0 = a0 as nat;
    let y0 = c0 as nat;
    assert(x0 * 1 == x0 && y0 * 1 == y0) by (nonlinear_arith);
    assert(v == x0 + 256 * mid + (a31 as nat) * p);
    assert(cv == y0 + 256 * mid + (c31 as nat) * p);
    let q = two_pow_254();
    let low = x0 + 256 * mid + ((a31 % 64) as nat) * p;
    assert(q == 64 * p);
    vstd::arithmetic::div_mod::lemma_fundamental_div_mod(a31 as int, 64);
    vstd::arithmetic::div_mod::lemma_fundamental_div_mod(x0 as int, 8);
    assert(v == low + q * ((a31 / 64) as nat) && low < q) by (nonlinear_arith)
        requires
            v == x0 + 256 * mid + (a31 as nat) * p,
            low == x0 + 256 * mid + ((a31 % 64) as nat) * p,
            a31 as int == 64 * (a31 as int / 64) + a31 as int % 64,
            q == 64 * p,
            mid < 0x1_0000_0000_0000_0000_0000_0000_0000_0000_0000_0000_0000_0000_0000_0000_0000nat,
            p == 0x100_0000_0000_0000_0000_0000_0000_0000_0000_0000_0000_0000_0000_0000_0000_0000nat,
            x0 < 256,
            a31 % 64 < 64,
    ;
    vstd::arithmetic::div_mod::lemma_fundamental_div_mod_converse(
        v as int,
        q as int,
        (a31 / 64) as int,
        low as int,
    );
    let e = (x0 / 8) + 32 * mid + (p / 8) * (a31 as nat);
    assert(v == (x0 % 8) + e * 8) by (nonlinear_arith)
        requires
            v == x0 + 256 * mid + (a31 as nat) * p,
            e == (x0 / 8) + 32 * mid + (p / 8) * (a31 as nat),
            x0 as int == 8 * (x0 as int / 8) + x0 as int % 8,
            p == 8 * (p / 8),
    ;
    vstd::arithmetic::div_mod::lemma_fundamental_div_mod_converse(
        v as int,
        8,
        e as int,
        (x0 % 8) as int,
    );
    assert(cv == q + low - x0 % 8) by (nonlinear_arith)
        requires
            cv == y0 + 256 * mid + (c31 as nat) * p,
            y0 == x0 - x0 % 8,
            c31 as nat == 64 + (a31 % 64) as nat,
            low == x0 + 256 * mid + ((a31 % 64) as nat) * p,
            q == 64 * p,
    ;
    let f = (y0 / 8) + 32 * mid + (p / 8) * (c31 as nat);
    assert(c0 % 8 == 0) by (bit_vector)
        requires
            c0 == a0 & 248u8,
    ;
    vstd::arithmetic::div_mod::lemma_fundamental_div_mod(y0 as int, 8);
    assert(cv == f * 8) by (nonlinear_arith)
        requires
            cv == y0 + 256 * mid + (c31 as nat) * p,
            f == (y0 / 8) + 32 * mid + (p / 8) * (c31 as nat),
            y0 as int == 8 * (y0 as int / 8),
            p == 8 * (p / 8),
    ;
    vstd::arithmetic::div_mod::lemma_fundamental_div_mod_converse(cv as int, 8, f as int, 0);
}

/// Law: SHA-512 Ed25519 hashes whole inputs. The digest is SHA-512 of every byte given, the
/// secret seed's SHA-512 digest splits into the scalar bytes (first half) and the nonce seed
/// (second half), and a 64-byte digest reduces to a scalar congruent to its value modulo `L`.
pub proof fn law_sha512_hashing(data: Seq<u8>, seed: Seq<u8>, h: Seq<u8>)
    ensures
        Sha512Digest::spec_digest(data) == spec_sha512(data),
        Sha512Digest::spec_hash_32x2(seed) == (spec_sha512(seed).take(32), spec_sha512(seed).skip(32)),
        Sha512Digest::spec_hash_to_scalar(h) == wide_scalar(h),
        h.len() == 64 ==> wide_scalar(h) % group_order() == bytes_val(h) % group_order(),
{
    if h.len() == 64 {
        law_wide_reduction(h);
    }
}

/// Law: SHA-256 Ed25519 hashes whole inputs. The digest is SHA-256 of every byte given, the
/// scalar bytes and the nonce seed are SHA-256 of `0x01 || seed` and of `0x02 || seed`, and a
/// digest reduces to its little-endian value modulo `L`.
pub proof fn law_sha256_hashing(data: Seq<u8>, seed: Seq<u8>, h: Seq<u8>)
    ensures
        Sha256Digest::spec_digest(data) == spec_sha256(data),
        Sha256Digest::spec_hash_32x2(seed) == (spec_sha256(seq![0x01u8] + seed), spec_sha256(
            seq![0x02u8] + seed,
        )),
        Sha256Digest::spec_hash_to_scalar(h) == bytes_val(h) % group_order(),
{
}

/// Law (RFC 8032 5.1.5 and 5.1.6, with SHA-512): the secret scalar is the clamped first half of
/// SHA-512 of the seed, modulo `L`; the public key is its multiple of the base point; the nonce
/// `r` is the reduction of SHA-512 of the second half of that digest followed by the whole
/// message, and `R = [r]B`; the challenge `k` is the reduction of SHA-512 of `R`, the public key
/// and the whole message. Each reduction is congruent to the digest's value modulo `L`, and the
/// second half `S` is congruent to `r + k * a` modulo `L`, for the secret scalar `a`.
pub proof fn law_sign_sha512(secret_key: Seq<u8>, message: Seq<u8>)
    requires
        spec_sha512(secret_key).len() == 64,
    ensures
        ({
            let hk = spec_sha512(secret_key);
            let a = bytes_val(hk.take(32));
            key_scalar::<Sha512Digest>(secret_key) == ((two_pow_254() + a % two_pow_254() - a % 8) as nat)
                % group_order()
        }),
        key_public::<Sha512Digest>(secret_key) == spec_scalar_mul(
            key_scalar::<Sha512Digest>(secret_key),
            basepoint_encoding(),
        ),
        ({
            let hr = spec_sha512(spec_sha512(secret_key).skip(32) + message);
            &&& sign_r::<Sha512Digest>(secret_key, message) == wide_scalar(hr)
            &&& hr.len() == 64 ==> sign_r::<Sha512Digest>(secret_key, message) % group_order()
                == bytes_val(hr) % group_order()
        }),
        sign_rr::<Sha512Digest>(secret_key, message) == spec_scalar_mul(
            sign_r::<Sha512Digest>(secret_key, message),
            basepoint_encoding(),
        ),
        ({
            let hk = spec_sha512(
                sign_rr::<Sha512Digest>(secret_key, message) + key_public::<Sha512Digest>(
                    secret_key,
                ) + message,
            );
            &&& sign_k::<Sha512Digest>(secret_key, message) == wide_scalar(hk)
            &&& hk.len() == 64 ==> sign_k::<Sha512Digest>(secret_key, message) % group_order()
                == bytes_val(hk) % group_order()
        }),
        spec_sha512(spec_sha512(secret_key).skip(32) + message).len() == 64 ==> sign_s::<
            Sha512Digest,
        >(secret_key, message) % group_order() == (sign_r::<Sha512Digest>(secret_key, message)
            + sign_k::<Sha512Digest>(secret_key, message) * key_scalar::<Sha512Digest>(secret_key))
            % group_order(),
{
    let hk = spec_sha512(secret_key);
    law_clamp(hk.take(32));
    let hr = spec_sha512(spec_sha512(secret_key).skip(32) + message);
    if hr.len() == 64 {
        law_wide_reduction(hr);
    }
    let hc = spec_sha512(
        sign_rr::<Sha512Digest>(secret_key, message) + key_public::<Sha512Digest>(secret_key)
            + message,
    );
    if hc.len() == 64 {
        law_wide_reduction(hc);
    }
    if hr.len() == 64 {
        lemma_sign_s_congruent::<Sha512Digest>(secret_key, message);
    }
}

/// `S` is congruent to `r + k * a` modulo `L` when `r` is below `R + RR`.
proof fn lemma_sign_s_congruent<D: Ed25519DigestLength>(secret_key: Seq<u8>, message: Seq<u8>)
    requires
        sign_r::<D>(secret_key, message) < r_const() + rr_const(),
    ensures
        sign_s::<D>(secret_key, message) % group_order() == (sign_r::<D>(secret_key, message)
            + sign_k::<D>(secret_key, message) * key_scalar::<D>(secret_key)) % group_order(),
{
    let r = sign_r::<D>(secret_key, message);
    let ka = sign_k::<D>(secret_key, message) * key_scalar::<D>(secret_key);
    let l = group_order() as int;
    vstd::arithmetic::div_mod::lemma_mod_pos_bound(ka as int, l);
    crate::limbs::lemma_rpow_values();
    law_add_congruent(r, ka % group_order());
    vstd::arithmetic::div_mod::lemma_add_mod_noop_right(r as int, ka as int, l);
}

/// Law (RFC 8032 5.1.7, with SHA-512): a signature `R || S` verifies under a public key exactly
/// when `S` is below `L`, the key decodes to a point `A`, and `[k](-A) + [S]B` encodes to `R`,
/// where `k` is the reduction of SHA-512 of `R`, the public key and the whole message.
pub proof fn law_verify_sha512(message: Seq<u8>, public_key: Seq<u8>, sig: Seq<u8>)
    ensures
        verify_accepts::<Sha512Digest>(message, public_key, sig) <==> {
            let r = sig.take(32);
            let s = sig.skip(32);
            &&& bytes_val(s) < group_order()
            &&& spec_decompress(public_key) is Some
            &&& spec_point_add(
                spec_scalar_mul(
                    wide_scalar(spec_sha512(r + public_key + message)),
                    spec_point_neg(spec_decompress(public_key)->0),
                ),
                spec_scalar_mul(bytes_val(s), basepoint_encoding()),
            ) == r
        },
{
}

/// Law (with SHA-256): the secret scalar is the clamped SHA-256 of `0x01 || seed` modulo `L`;
/// the nonce `r` is SHA-256 of SHA-256(`0x02 || seed`) followed by the whole message, modulo
/// `L`; the challenge `k` is SHA-256 of `R`, the public key and the whole message, modulo `L`;
/// and the second half is `S = (r + k * a) mod L`, for the secret scalar `a`.
pub proof fn law_sign_sha256(secret_key: Seq<u8>, message: Seq<u8>)
    requires
        spec_sha256(seq![0x01u8] + secret_key).len() == 32,
    ensures
        ({
            let a = bytes_val(spec_sha256(seq![0x01u8] + secret_key));
            key_scalar::<Sha256Digest>(secret_key) == ((two_pow_254() + a % two_pow_254() - a % 8) as nat)
                % group_order()
        }),
        sign_r::<Sha256Digest>(secret_key, message) == bytes_val(
            spec_sha256(spec_sha256(seq![0x02u8] + secret_key) + message),
        ) % group_order(),
        sign_k::<Sha256Digest>(secret_key, message) == bytes_val(
            spec_sha256(
                sign_rr::<Sha256Digest>(secret_key, message) + key_public::<Sha256Digest>(
                    secret_key,
                ) + message,
            ),
        ) % group_order(),
        sign_s::<Sha256Digest>(secret_key, message) == (sign_r::<Sha256Digest>(secret_key, message)
            + sign_k::<Sha256Digest>(secret_key, message) * key_scalar::<Sha256Digest>(secret_key))
            % group_order(),
{
    law_clamp(spec_sha256(seq![0x01u8] + secret_key));
    let r = sign_r::<Sha256Digest>(secret_key, message);
    let ka = sign_k::<Sha256Digest>(secret_key, message) * key_scalar::<Sha256Digest>(secret_key);
    let l = group_order() as int;
    vstd::arithmetic::div_mod::lemma_mod_pos_bound(ka as int, l);
    vstd::arithmetic::div_mod::lemma_mod_pos_bound(
        bytes_val(spec_sha256(spec_sha256(seq![0x02u8] + secret_key) + message)) as int,
        l,
    );
    law_add_canonical(r, ka % group_order());
    vstd::arithmetic::div_mod::lemma_add_mod_noop_right(r as int, ka as int, l);
}

/// Law (with SHA-256): a signature `R || S` verifies exactly when `S` is below `L`, the key
/// decodes to `A`, and `[k](-A) + [S]B` encodes to `R`, for `k` SHA-256 of `R`, the public key
/// and the whole message, modulo `L`.
pub proof fn law_verify_sha256(message: Seq<u8>, public_key: Seq<u8>, sig: Seq<u8>)
    ensures
        verify_accepts::<Sha256Digest>(message, public_key, sig) <==> {
            let r = sig.take(32);
            let s = sig.skip(32);
            &&& bytes_val(s) < group_order()
            &&& spec_decompress(public_key) is Some
            &&& spec_point_add(
                spec_scalar_mul(
                    bytes_val(spec_sha256(r + public_key + message)) % group_order(),
                    spec_point_neg(spec_decompress(public_key)->0),
                ),
                spec_scalar_mul(bytes_val(s), basepoint_encoding()),
            ) == r
        },
{
}

} // verus!
