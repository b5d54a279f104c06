//! Points of the Ed25519 curve, held by their canonical 32-byte encodings, and X25519.
//!
//! The curve arithmetic itself is done by `curve25519-dalek`; each of its operations is named
//! below by a function on encodings, and what the library proves about points is stated over
//! those names.
use vstd::prelude::*;
use crate::limbs::{bytes_val, bpow, lemma_bytes_val_top};
use crate::scalar::Scalar;

verus! {

/// The canonical encoding of the point that `enc` decodes to, if `enc` is the `y`-coordinate
/// of a curve point (`curve25519_dalek::edwards::CompressedEdwardsY::decompress`, followed by
/// `EdwardsPoint::compress`).
pub uninterp spec fn spec_decompress(enc: Seq<u8>) -> Option<Seq<u8>>;

/// The encoding of `-P`, for the point `P` encoded by `p` (`Neg for EdwardsPoint`).
pub uninterp spec fn spec_point_neg(p: Seq<u8>) -> Seq<u8>;

/// The encoding of `P + Q`, for the points encoded by `p` and `q` (`Add for EdwardsPoint`).
pub uninterp spec fn spec_point_add(p: Seq<u8>, q: Seq<u8>) -> Seq<u8>;

/// The encoding of `[s]P`, the integer multiple `s` of the point encoded by `p`
/// (`Mul<&EdwardsPoint> for &Scalar`, on a scalar of at most 255 bits).
pub uninterp spec fn spec_scalar_mul(s: nat, p: Seq<u8>) -> Seq<u8>;

/// The X25519 function of RFC 7748 on a scalar and a `u`-coordinate
/// (`MontgomeryPoint::mul_clamped`).
pub uninterp spec fn spec_x25519(scalar: Seq<u8>, u: Seq<u8>) -> Seq<u8>;

/// `enc` is the canonical encoding of a curve point: decoding it gives back the same encoding.
pub open spec fn is_point_encoding(enc: Seq<u8>) -> bool {
    spec_decompress(enc) == Some(enc)
}

/// The encoding of the Ed25519 base point: the `y`-coordinate 4/5, with a clear sign bit.
pub open spec fn basepoint_encoding() -> Seq<u8> {
    seq![
        0x58u8, 0x66u8, 0x66u8, 0x66u8, 0x66u8, 0x66u8, 0x66u8, 0x66u8,
        0x66u8, 0x66u8, 0x66u8, 0x66u8, 0x66u8, 0x66u8, 0x66u8, 0x66u8,
        0x66u8, 0x66u8, 0x66u8, 0x66u8, 0x66u8, 0x66u8, 0x66u8, 0x66u8,
        0x66u8, 0x66u8, 0x66u8, 0x66u8, 0x66u8, 0x66u8, 0x66u8, 0x66u8,
    ]
}

/// Decompresses with `curve25519_dalek::edwards::CompressedEdwardsY::decompress` and
/// re-encodes the point with `EdwardsPoint::compress`. Claimed: the result is the name
/// `spec_decompress` of the input, and a point's encoding decodes back to itself.
#[verifier::external_body]
fn dalek_decompress(bytes: [u8; 32]) -> (r: Option<[u8; 32]>)
    ensures
        match r {
            Some(e) => spec_decompress(bytes@) == Some(e@) && is_point_encoding(e@),
            None => spec_decompress(bytes@) is None,
        },
{
    match curve25519_dalek::edwards::CompressedEdwardsY(bytes).decompress() {
        Some(p) => Some(p.compress().to_bytes()),
        None => None,
    }
}

/// Negates a point with `Neg for curve25519_dalek::edwards::EdwardsPoint`. Claimed: the
/// result is the name `spec_point_neg` of the input, and it is a point encoding.
#[verifier::external_body]
fn dalek_neg(p: [u8; 32]) -> (r: [u8; 32])
    requires
        is_point_encoding(p@),
    ensures
        r@ == spec_point_neg(p@),
        is_point_encoding(r@),
{
    let pt = curve25519_dalek::edwards::CompressedEdwardsY(p).decompress().unwrap();
    (-pt).compress().to_bytes()
}

/// Adds two points with `Add for &curve25519_dalek::edwards::EdwardsPoint`. Claimed: the
/// result is the name `spec_point_add` of the inputs, and it is a point encoding.
#[verifier::external_body]
fn dalek_add(p: [u8; 32], q: [u8; 32]) -> (r: [u8; 32])
    requires
        is_point_encoding(p@),
        is_point_encoding(q@),
    ensures
        r@ == spec_point_add(p@, q@),
        is_point_encoding(r@),
{
    let a = curve25519_dalek::edwards::CompressedEdwardsY(p).decompress().unwrap();
    let b = curve25519_dalek::edwards::CompressedEdwardsY(q).decompress().unwrap();
    (&a + &b).compress().to_bytes()
}

/// Multiplies a point by the integer whose little-endian bytes are `s`, with
/// `Mul<&EdwardsPoint> for &curve25519_dalek::scalar::Scalar` on `Scalar::from_bits(s)`, which
/// keeps all of `s` when its top bit is clear. Claimed: the result is the name
/// `spec_scalar_mul` of the value of `s` and of `p`, and it is a point encoding.
#[verifier::external_body]
#[allow(deprecated)]
fn dalek_mul(s: [u8; 32], p: [u8; 32]) -> (r: [u8; 32])
    requires
        s@[31] < 128,
        is_point_encoding(p@),
    ensures
        r@ == spec_scalar_mul(bytes_val(s@), p@),
        is_point_encoding(r@),
{
    let k = curve25519_dalek::scalar::Scalar::from_bits(s);
    let pt = curve25519_dalek::edwards::CompressedEdwardsY(p).decompress().unwrap();
    (&k * &pt).compress().to_bytes()
}

/// The encoding of `curve25519_dalek::constants::ED25519_BASEPOINT_POINT`. Claimed: it is the
/// documented `ED25519_BASEPOINT_COMPRESSED`, and a point encoding.
#[verifier::external_body]
fn dalek_basepoint() -> (r: [u8; 32])
    ensures
        r@ == basepoint_encoding(),
        is_point_encoding(r@),
{
    curve25519_dalek::constants::ED25519_BASEPOINT_POINT.compress().to_bytes()
}

/// X25519 key agreement: `MontgomeryPoint(point).mul_clamped(scalar)` of `curve25519-dalek`.
/// Claimed: the result is the name `spec_x25519` of the two inputs.
#[verifier::external_body]
pub fn x25519(scalar: [u8; 32], point: [u8; 32]) -> (r: [u8; 32])
    ensures
        r@ == spec_x25519(scalar@, point@),
{
    curve25519_dalek::montgomery::MontgomeryPoint(point).mul_clamped(scalar).to_bytes()
}

/// A compressed point: the `y`-coordinate, with the sign of `x` in the top bit.
#[derive(Copy, Clone)]
pub struct CompressedEdwardsY(pub [u8; 32]);

/// A point of the curve, held by its canonical encoding.
#[derive(Copy, Clone)]
pub struct EdwardsPoint([u8; 32]);

impl View for EdwardsPoint {
    type V = Seq<u8>;

    closed spec fn view(&self) -> Seq<u8> {
        self.0@
    }
}

impl EdwardsPoint {
    /// An `EdwardsPoint` always holds the canonical encoding of a curve point.
    #[verifier::type_invariant]
    spec fn holds_point(self) -> bool {
        is_point_encoding(self.0@)
    }

    /// The point holds the canonical encoding of a curve point.
    pub open spec fn is_valid(self) -> bool {
        is_point_encoding(self@)
    }

    /// The canonical encoding of the point.
    pub fn compress(&self) -> (r: CompressedEdwardsY)
        ensures
            r.0@ == self@,
            is_point_encoding(r.0@),
    {
        proof {
            use_type_invariant(self);
        }
        CompressedEdwardsY(self.0)
    }

    /// `self + rhs`.
    pub fn add(self, rhs: EdwardsPoint) -> (r: EdwardsPoint)
        ensures
            r@ == spec_point_add(self@, rhs@),
            r.is_valid(),
    {
        proof {
            use_type_invariant(&self);
            use_type_invariant(&rhs);
        }
        EdwardsPoint(dalek_add(self.0, rhs.0))
    }

    /// `-self`.
    pub fn neg(self) -> (r: EdwardsPoint)
        ensures
            r@ == spec_point_neg(self@),
            r.is_valid(),
    {
        proof {
            use_type_invariant(&self);
        }
        EdwardsPoint(dalek_neg(self.0))
    }
}

impl CompressedEdwardsY {
    /// The point whose `y`-coordinate and sign these bytes give, if there is one.
    pub fn decompress(&self) -> (r: Option<EdwardsPoint>)
        ensures
            match r {
                Some(p) => spec_decompress(self.0@) == Some(p@) && p.is_valid(),
                None => spec_decompress(self.0@) is None,
            },
    {
        match dalek_decompress(self.0) {
            Some(e) => Some(EdwardsPoint(e)),
            None => None,
        }
    }
}

/// The Ed25519 base point.
pub fn ed25519_basepoint_point() -> (r: EdwardsPoint)
    ensures
        r@ == basepoint_encoding(),
        r.is_valid(),
{
    EdwardsPoint(dalek_basepoint())
}

impl Scalar {
    /// `[self]P`, the multiple of the point by the integer `self`, which is below 2^255.
    pub fn mul_point(self, rhs: EdwardsPoint) -> (r: EdwardsPoint)
        requires
            self@ < 0x8000_0000_0000_0000_0000_0000_0000_0000_0000_0000_0000_0000_0000_0000_0000_0000,
        ensures
            r@ == spec_scalar_mul(self@, rhs@),
            r.is_valid(),
    {
        let bytes = self.as_bytes();
        proof {
            use_type_invariant(&rhs);
            lemma_bytes_val_top(bytes@);
            reveal_with_fuel(bpow, 32);
            let p = bpow(31);
            let top = bytes@[31];
            assert(bytes@.last() == top);
            assert(p == 0x1_0000_0000_0000_0000_0000_0000_0000_0000_0000_0000_0000_0000_0000_0000_0000_00);
            assert(top < 128) by (nonlinear_arith)
                requires
                    (top as nat) * p <= bytes_val(bytes@),
                    bytes_val(bytes@) < 128 * p,
                    p > 0,
            ;
        }
        EdwardsPoint(dalek_mul(bytes, rhs.0))
    }
}

} // verus!
