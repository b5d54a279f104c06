use cortex25519::edwards::{ed25519_basepoint_point, x25519, CompressedEdwardsY};
use cortex25519::scalar::Scalar;

fn arr32(s: &str) -> [u8; 32] {
    let mut out = [0u8; 32];
    for i in 0..32 {
        out[i] = u8::from_str_radix(&s[2 * i..2 * i + 2], 16).unwrap();
    }
    out
}

#[test]
fn basepoint_encoding() {
    let b = ed25519_basepoint_point();
    let mut expect = [0x66u8; 32];
    expect[0] = 0x58;
    assert_eq!(b.compress().0, expect);
}

#[test]
fn decompress_compress_round_trip() {
    let pk = arr32("d75a980182b10ab7d54bfed3c964073a0ee172f3daa62325af021a68f707511a");
    let p = CompressedEdwardsY(pk).decompress().unwrap();
    assert_eq!(p.compress().0, pk);
}

#[test]
fn decompress_gives_the_canonical_encoding() {
    // y = p + 1 is not reduced; it decodes to the point y = 1, the identity
    let mut y = [0xffu8; 32];
    y[0] = 0xee;
    y[31] = 0x7f;
    let p = CompressedEdwardsY(y).decompress().unwrap();
    let mut identity = [0u8; 32];
    identity[0] = 1;
    assert_eq!(p.compress().0, identity);
}

#[test]
fn decompress_rejects_non_point() {
    let mut y = [0u8; 32];
    y[0] = 2;
    assert!(CompressedEdwardsY(y).decompress().is_none());
}

#[test]
fn add_and_neg() {
    let b = ed25519_basepoint_point();
    let mut identity = [0u8; 32];
    identity[0] = 1;
    assert_eq!(b.add(b.neg()).compress().0, identity);
    assert_eq!(
        b.neg().compress().0,
        arr32("58666666666666666666666666666666666666666666666666666666666666e6")
    );
    assert_eq!(
        b.add(b).compress().0,
        arr32("c9a3f86aae465f0e56513864510f3997561fa2c9e85ea21dc2292309f3cd6022")
    );
}

#[test]
fn scalar_times_basepoint() {
    let mut two = [0u8; 32];
    two[0] = 2;
    let s = Scalar::from_bytes_mod_order(two);
    let b = ed25519_basepoint_point();
    assert_eq!(s.mul_point(b).compress().0, b.add(b).compress().0);
}

#[test]
fn rfc7748_x25519() {
    let k = arr32("a546e36bf0527c9d3b16154b82465edd62144c0ac1fc5a18506a2244ba449ac4");
    let u = arr32("e6db6867583030db3594c1a424b15f7c726624ec26b3353b10a903a6d0ab1c4c");
    let out = arr32("c3da55379de9c6908e94ea4df28d084f32eccf03491c71f754b4075577a28552");
    assert_eq!(x25519(k, u), out);
}

#[test]
fn x25519_key_agreement() {
    let a = arr32("77076d0a7318a57d3c16c17251b26645df4c2f87ebc0992ab177fba51db92c2a");
    let b = arr32("5dab087e624a8a4b79e17f8b83800ee66f3bb1292618b6fd1c2f8b27ff88e0eb");
    let mut nine = [0u8; 32];
    nine[0] = 9;
    let pa = x25519(a, nine);
    let pb = x25519(b, nine);
    assert_eq!(pa, arr32("8520f0098930a754748b7ddcb43ef75a0dbf3a0d26381af4eba4a98eaa9b4e6a"));
    assert_eq!(x25519(a, pb), x25519(b, pa));
    assert_eq!(x25519(a, pb), arr32("4a5d9d5ba4ce2de1728e3bf480350f25e07e21c947d19e3376f09b3c1e161742"));
}
