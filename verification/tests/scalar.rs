use cortex25519::scalar::Scalar;

fn hex32(s: &str) -> [u8; 32] {
    let mut out = [0u8; 32];
    for i in 0..32 {
        out[i] = u8::from_str_radix(&s[2 * i..2 * i + 2], 16).unwrap();
    }
    out
}

fn hex64(s: &str) -> [u8; 64] {
    let mut out = [0u8; 64];
    for i in 0..64 {
        out[i] = u8::from_str_radix(&s[2 * i..2 * i + 2], 16).unwrap();
    }
    out
}

const L_MINUS_1: &str = "ecd3f55c1a631258d69cf7a2def9de1400000000000000000000000000000010";
const L_BYTES: &str = "edd3f55c1a631258d69cf7a2def9de1400000000000000000000000000000010";
const A: &str = "efcdab8967452301efcdab8967452301efcdab8967452301efcdab8967452301";
const B: &str = "21436587a9cbed0f21436587a9cbed0f21436587a9cbed0f21436587a9cbed0f";

fn scalar(s: &str) -> Scalar {
    Scalar::from_canonical_bytes(hex32(s)).unwrap()
}

#[test]
fn from_bytes_mod_order_reduces_all_ones() {
    let s = Scalar::from_bytes_mod_order([0xff; 32]);
    assert_eq!(
        s.as_bytes(),
        hex32("1c95988d7431ecd670cf7d73f45befc6feffffffffffffffffffffffffffff0f")
    );
}

#[test]
fn from_bytes_mod_order_of_l_is_zero() {
    let s = Scalar::from_bytes_mod_order(hex32(L_BYTES));
    assert_eq!(s.as_bytes(), [0u8; 32]);
}

#[test]
fn from_canonical_bytes_accepts_below_l() {
    let s = Scalar::from_canonical_bytes(hex32(L_MINUS_1));
    assert!(s.is_some());
    assert_eq!(s.unwrap().as_bytes(), hex32(L_MINUS_1));
    assert!(Scalar::from_canonical_bytes([0u8; 32]).is_some());
}

#[test]
fn from_canonical_bytes_rejects_l_and_above() {
    assert!(Scalar::from_canonical_bytes(hex32(L_BYTES)).is_none());
    let mut high = [0u8; 32];
    high[31] = 0x80;
    assert!(Scalar::from_canonical_bytes(high).is_none());
    assert!(Scalar::from_canonical_bytes([0xff; 32]).is_none());
}

#[test]
fn add_wraps_at_l() {
    let one = Scalar::from_bytes_mod_order({
        let mut b = [0u8; 32];
        b[0] = 1;
        b
    });
    let s = scalar(L_MINUS_1).add(one);
    assert_eq!(s.as_bytes(), [0u8; 32]);
    let s = scalar(A).add(scalar(B));
    assert_eq!(
        s.as_bytes(),
        hex32("233d1bb4f6adfeb83974196e321732fc0f111111111111111011111111111101")
    );
}

#[test]
fn sub_wraps_below_zero() {
    let mut one = [0u8; 32];
    one[0] = 1;
    let zero = scalar("0000000000000000000000000000000000000000000000000000000000000000");
    let s = zero.sub(scalar(&hex_of(&one)));
    assert_eq!(s.as_bytes(), hex32(L_MINUS_1));
    assert_eq!(
        scalar(A).sub(scalar(B)).as_bytes(),
        hex32("bb5e3c5fd8dc4749a4273ea59c731406ce8a4602be7935f1cd8a4602be793501")
    );
    assert_eq!(
        scalar(B).sub(scalar(A)).as_bytes(),
        hex32("3275b9fd4186ca0e3275b9fd4186ca0e3275b9fd4186ca0e3275b9fd4186ca0e")
    );
}

fn hex_of(b: &[u8]) -> String {
    b.iter().map(|x| format!("{:02x}", x)).collect()
}

#[test]
fn add_then_sub_gives_back() {
    let a = scalar(A);
    let b = scalar(B);
    assert_eq!(a.add(b).sub(b), a);
}

#[test]
fn mul_of_l_minus_one_squared_is_one() {
    let m = scalar(L_MINUS_1).mul(scalar(L_MINUS_1));
    let mut one = [0u8; 32];
    one[0] = 1;
    assert_eq!(m.as_bytes(), one);
}

#[test]
fn mul_mod_l() {
    let m = scalar(A).mul(scalar(B));
    assert_eq!(
        m.as_bytes(),
        hex32("82e1a8cb6e3922fd97d75b04ac02634a1342714469abdae9d1e754ede827e708")
    );
    assert_eq!(scalar(B).mul(scalar(A)), m);
}

#[test]
fn montgomery_reduce_divides_by_two_to_the_256() {
    let m = scalar(A).raw_mul(scalar(B)).montgomery_reduce();
    assert_eq!(
        m.as_bytes(),
        hex32("14b1bfb062be982fbf3d465a4ef1dcdfcc54cdbf2d79d5cf6523cdc43e271c0d")
    );
}

#[test]
fn scalar512_add_then_reduce() {
    // a*b + b*a reduced: twice the Montgomery value of a*b, modulo L
    let t = scalar(A).raw_mul(scalar(B)).add(scalar(B).raw_mul(scalar(A)));
    let m = t.montgomery_reduce();
    let once = scalar(A).raw_mul(scalar(B)).montgomery_reduce();
    assert_eq!(m, once.add(once));
}

#[test]
fn reduce_keeps_canonical() {
    let a = scalar(A);
    assert_eq!(a.reduce(), a);
}

#[test]
fn wide_reduction_of_all_ones() {
    let s = Scalar::from_bytes_mod_order_wide(&[0xff; 64]);
    assert_eq!(
        s.as_bytes(),
        hex32("000f9c44e31106a447938568a71b0ed065bef517d273ecce3d9a307c1b419903")
    );
}

#[test]
fn wide_reduction_may_stay_above_l() {
    let input = hex64("f49452905954c154f97a81e2cb34d36850b99e85f0b305651fb8df15908e6bdccb027107231f5967c2f0a42d7ee402bcff0c148f47b1ca1cf055b0c86191bfdd");
    let s = Scalar::from_bytes_mod_order_wide(&input);
    let bytes = s.as_bytes();
    assert_eq!(
        bytes,
        hex32("dc4fae8be0b8f524cdb7043091e486de0d9f0e7454d4d95169ff78088b343110")
    );
    // the result is congruent to the input but not canonical
    assert!(Scalar::from_canonical_bytes(bytes).is_none());
    assert_eq!(s.reduce().as_bytes(), Scalar::from_bytes_mod_order(bytes).as_bytes());
}

#[test]
fn as_bytes_round_trips_canonical_scalars() {
    let a = scalar(A);
    assert_eq!(Scalar::from_canonical_bytes(a.as_bytes()), Some(a));
}
