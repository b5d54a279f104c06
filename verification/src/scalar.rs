//! Arithmetic modulo the order of the Ed25519 base point, on eight 32-bit limbs.
use vstd::prelude::*;
use vstd::arithmetic::div_mod::{
    lemma_fundamental_div_mod,
    lemma_fundamental_div_mod_converse,
    lemma_mod_multiples_vanish,
    lemma_small_mod,
};
use crate::limbs::{
    bytes_val, lemma_bytes_val_split, lemma_bytes_val_top, lemma_bpow_rpow,
    lemma_limbs_bytes_val, limbs_match_bytes, word_of, bpow,
    lemma_limbs_val_bound, lemma_limbs_val_injective, lemma_limbs_val_split, lemma_limbs_val_take_step,
    lemma_limbs_val_update, lemma_limbs_val_zeros, lemma_rpow_add, lemma_rpow_mono, lemma_rpow_pos,
    lemma_rpow_values, limbs_val, rpow,
};

verus! {

/// `L`, the order of the base point: 2^252 + 27742317777372353535851937790883648493.
pub open spec fn group_order() -> nat {
    7237005577332262213973186563042994240857116359379907606001950938285454250989nat
}

/// `R = 2^256 mod L`.
pub open spec fn r_const() -> nat {
    7237005577332262213973186563042994240413239274941949949428319933631315875101nat
}

/// `RR = R^2 mod L`.
pub open spec fn rr_const() -> nat {
    1627715501170711445284395025044413883736156588369414752970002579683115011841nat
}

/// The inverse of `L` modulo 2^256.
pub open spec fn l_inv() -> nat {
    44456032762084394597227269931660057875228353846263537838403497779850988192229nat
}

/// The value subtracted by `Scalar::sub`: `a - b`, plus `L` modulo 2^256 when `a < b`.
pub open spec fn sub_spec(a: nat, b: nat) -> nat {
    if a >= b {
        (a - b) as nat
    } else {
        ((a - b + group_order()) % (rpow(8) as int)) as nat
    }
}

/// The Montgomery quotient of `t`: the unique `q < 2^256` with `t + q * L` divisible by 2^256.
pub open spec fn mont_q(t: nat) -> nat {
    (((-(t as int)) * (l_inv() as int)) % (rpow(8) as int)) as nat
}

/// Whether the Montgomery reduction of `t` keeps its intermediate sum below 2^512.
pub open spec fn mont_ok(t: nat) -> bool {
    t + mont_q(t) * group_order() < rpow(16)
}

/// `(t + q * L) / 2^256` for the Montgomery quotient `q` of `t`.
pub open spec fn mont_u(t: nat) -> nat {
    (t + mont_q(t) * group_order()) / rpow(8)
}

/// The result of the Montgomery reduction of `t`: `mont_u(t)`, less `L` once if it is at least `L`.
pub open spec fn mont_spec(t: nat) -> nat {
    if mont_u(t) >= group_order() {
        (mont_u(t) - group_order()) as nat
    } else {
        mont_u(t)
    }
}

/// An integer modulo `L`, held as eight little-endian 32-bit limbs.
#[derive(Debug, Clone, Copy)]
pub struct Scalar(pub(crate) [u32; 8]);

/// A 512-bit integer, held as sixteen little-endian 32-bit limbs.
#[derive(Debug, Clone, Copy)]
pub struct Scalar512(pub(crate) [u32; 16]);

impl View for Scalar {
    type V = nat;

    closed spec fn view(&self) -> nat {
        limbs_val(self.0@)
    }
}

impl View for Scalar512 {
    type V = nat;

    closed spec fn view(&self) -> nat {
        limbs_val(self.0@)
    }
}

/// The limbs of `L`.
pub const L_LIMBS: [u32; 8] = [
    0x5cf5d3ed, 0x5812631a, 0xa2f79cd6, 0x14def9de, 0x00000000, 0x00000000, 0x00000000, 0x10000000,
];

/// The limbs of `R = 2^256 mod L`.
pub const R_LIMBS: [u32; 8] = [
    0x8d98951d, 0xd6ec3174, 0x737dcf70, 0xc6ef5bf4, 0xfffffffe, 0xffffffff, 0xffffffff, 0x0fffffff,
];

/// The limbs of `RR = R^2 mod L`.
pub const RR_LIMBS: [u32; 8] = [
    0x449c0f01, 0xa40611e3, 0x68859347, 0xd00e1ba7, 0x17f5be65, 0xceec73d2, 0x7c309a3d, 0x0399411b,
];

/// `L * LFACTOR = -1 (mod 2^32)`.
pub const LFACTOR: u32 = 0x12547e1b;

/// The value of eight limbs, written out.
pub proof fn lemma_limbs_val_8(s: Seq<u32>)
    requires
        s.len() == 8,
    ensures
        limbs_val(s) == s[0] + s[1] * rpow(1) + s[2] * rpow(2) + s[3] * rpow(3) + s[4] * rpow(4)
            + s[5] * rpow(5) + s[6] * rpow(6) + s[7] * rpow(7),
{
    assert(rpow(0) == 1);
    assert(s.take(0).len() == 0);
    assert(limbs_val(s.take(0)) == 0);
    lemma_limbs_val_take_step(s, 0);
    let s0 = s[0] as nat;
    let r0 = rpow(0);
    assert(s0 * r0 == s0) by (nonlinear_arith)
        requires
            r0 == 1,
    ;
    assert(limbs_val(s.take(1)) == s[0]);
    lemma_limbs_val_take_step(s, 1);
    lemma_limbs_val_take_step(s, 2);
    lemma_limbs_val_take_step(s, 3);
    lemma_limbs_val_take_step(s, 4);
    lemma_limbs_val_take_step(s, 5);
    lemma_limbs_val_take_step(s, 6);
    lemma_limbs_val_take_step(s, 7);
    assert(limbs_val(s.take(8)) == s[0] + s[1] * rpow(1) + s[2] * rpow(2) + s[3] * rpow(3) + s[4] * rpow(4)
            + s[5] * rpow(5) + s[6] * rpow(6) + s[7] * rpow(7));
    assert(s.take(8) =~= s);
}

pub proof fn lemma_rpow_small()
    ensures
        rpow(1) == 0x1_0000_0000,
        rpow(2) == 0x1_0000_0000_0000_0000,
        rpow(3) == 0x1_0000_0000_0000_0000_0000_0000,
        rpow(4) == 0x1_0000_0000_0000_0000_0000_0000_0000_0000,
        rpow(5) == 0x1_0000_0000_0000_0000_0000_0000_0000_0000_0000_0000,
        rpow(6) == 0x1_0000_0000_0000_0000_0000_0000_0000_0000_0000_0000_0000_0000,
        rpow(7) == 0x1_0000_0000_0000_0000_0000_0000_0000_0000_0000_0000_0000_0000_0000_0000,
        rpow(8) == 0x1_0000_0000_0000_0000_0000_0000_0000_0000_0000_0000_0000_0000_0000_0000_0000_0000,
{
    reveal_with_fuel(rpow, 9);
}

pub proof fn lemma_const_values()
    ensures
        limbs_val(L_LIMBS@) == group_order(),
        limbs_val(R_LIMBS@) == r_const(),
        limbs_val(RR_LIMBS@) == rr_const(),
{
    lemma_rpow_small();
    lemma_limbs_val_8(L_LIMBS@);
    lemma_limbs_val_8(R_LIMBS@);
    lemma_limbs_val_8(RR_LIMBS@);
}

/// The low and high halves of a 64-bit word.
pub proof fn lemma_split_u64(t: u64)
    ensures
        (t as u32) as nat == t % 0x1_0000_0000,
        (t >> 32u64) as nat == t / 0x1_0000_0000,
        (t >> 32u64) <= 0xffff_ffff,
{
    assert((t as u32) == t % 0x1_0000_0000) by (bit_vector);
    assert((t >> 32u64) == t / 0x1_0000_0000) by (bit_vector);
    assert((t >> 32u64) <= 0xffff_ffff) by (bit_vector);
}

/// One limb of a subtraction with borrow.
proof fn lemma_sub_step(xi: int, yi: int, br: int, t: int, lo: int, br2: int, x: int, y: int, v: int, rp: int)
    requires
        0 <= t,
        t == xi + 4294967296 - yi - br,
        lo == t % 4294967296,
        br2 == 1 - t / 4294967296,
        v == x - y + br * rp,
    ensures
        v + lo * rp == (x + xi * rp) - (y + yi * rp) + br2 * (4294967296 * rp),
{
    lemma_fundamental_div_mod(t, 4294967296);
    let q = t / 4294967296;
    assert(v + lo * rp == (x + xi * rp) - (y + yi * rp) + br2 * (4294967296 * rp)) by (nonlinear_arith)
        requires
            t == 4294967296 * q + lo,
            t == xi + 4294967296 - yi - br,
            br2 == 1 - q,
            v == x - y + br * rp,
    ;
}

/// One limb of an addition with carry.
proof fn lemma_add_step(xi: int, yi: int, c: int, t: int, lo: int, c2: int, x: int, y: int, v: int, rp: int)
    requires
        0 <= t,
        t == xi + yi + c,
        lo == t % 4294967296,
        c2 == t / 4294967296,
        v + c * rp == x + y,
    ensures
        v + lo * rp + c2 * (4294967296 * rp) == (x + xi * rp) + (y + yi * rp),
{
    lemma_fundamental_div_mod(t, 4294967296);
    assert(v + lo * rp + c2 * (4294967296 * rp) == (x + xi * rp) + (y + yi * rp)) by (nonlinear_arith)
        requires
            t == 4294967296 * c2 + lo,
            t == xi + yi + c,
            v + c * rp == x + y,
    ;
}

/// `x = q * m + r` with `0 <= r < m` gives `r == x % m`.
proof fn lemma_mod_of_split(x: int, q: int, r: int, m: int)
    requires
        0 < m,
        0 <= r < m,
        x == r + q * m,
    ensures
        r == x % m,
{
    lemma_fundamental_div_mod_converse(x, m, q, r);
}

impl Scalar {
    /// Computes `self - b`, adding `L` back when the difference is negative, modulo 2^256.
    pub fn sub(self, b: Scalar) -> (r: Scalar)
        ensures
            r@ == sub_spec(self@, b@),
    {
        let mut a = self.0;
        let ghost a0 = self.0@;
        let mut borrow: u32 = 0;
        let mut i: usize = 0;
        proof {
            assert(a@.take(0).len() == 0);
            assert(a0.take(0).len() == 0);
            assert(b.0@.take(0).len() == 0);
        }
        while i < 8
            invariant
                0 <= i <= 8,
                a0 == self.0@,
                borrow <= 1,
                forall|k: int| i <= k < 8 ==> a@[k] == a0[k],
                limbs_val(a@.take(i as int)) as int == limbs_val(a0.take(i as int)) as int - limbs_val(
                    b.0@.take(i as int),
                ) as int + borrow * rpow(i as nat),
            decreases 8 - i,
        {
            let x = a[i];
            let t: u64 = (x as u64 + 0x1_0000_0000u64) - (b.0[i] as u64 + borrow as u64);
            proof {
                lemma_split_u64(t);
                assert((t >> 32u64) <= 1) by (bit_vector)
                    requires
                        t < 0x2_0000_0000u64,
                ;
            }
            let ghost pre = a@;
            let ghost br0 = borrow;
            a[i] = t as u32;
            borrow = 1 - ((t >> 32u64) as u32);
            proof {
                lemma_limbs_val_take_step(a@, i as int);
                lemma_limbs_val_take_step(a0, i as int);
                lemma_limbs_val_take_step(b.0@, i as int);
                assert(a@.take(i as int) =~= pre.take(i as int));
                lemma_sub_step(
                    x as int,
                    b.0@[i as int] as int,
                    br0 as int,
                    t as int,
                    (t as u32) as int,
                    borrow as int,
                    limbs_val(a0.take(i as int)) as int,
                    limbs_val(b.0@.take(i as int)) as int,
                    limbs_val(pre.take(i as int)) as int,
                    rpow(i as nat) as int,
                );
                assert(rpow((i + 1) as nat) == 4294967296 * rpow(i as nat));
            }
            i += 1;
        }
        proof {
            assert(a@.take(8) =~= a@);
            assert(a0.take(8) =~= a0);
            assert(b.0@.take(8) =~= b.0@);
        }
        let ghost d = limbs_val(a@);
        // conditionally add l if the difference is negative
        let mask: u32 = ((borrow as u64) * 0xffff_ffffu64) as u32;
        let ghost a1 = a@;
        let mut carry: u32 = 0;
        let mut i: usize = 0;
        proof {
            assert(a@.take(0).len() == 0);
            assert(L_LIMBS@.take(0).len() == 0);
        }
        while i < 8
            invariant
                0 <= i <= 8,
                borrow <= 1,
                mask == borrow * 0xffff_ffffu32,
                carry <= 1,
                forall|k: int| i <= k < 8 ==> a@[k] == a1[k],
                a1.len() == 8,
                limbs_val(a@.take(i as int)) + carry * rpow(i as nat) == limbs_val(a1.take(i as int))
                    + borrow * limbs_val(L_LIMBS@.take(i as int)),
            decreases 8 - i,
        {
            let x = a[i];
            let y = L_LIMBS[i] & mask;
            proof {
                let li = L_LIMBS[i as int];
                assert(borrow == 0 ==> y == 0) by (bit_vector)
                    requires
                        y == li & mask,
                        mask == borrow * 0xffff_ffffu32,
                        borrow <= 1,
                ;
                assert(borrow == 1 ==> y == li) by (bit_vector)
                    requires
                        y == li & mask,
                        mask == borrow * 0xffff_ffffu32,
                        borrow <= 1,
                ;
            }
            let t: u64 = x as u64 + y as u64 + carry as u64;
            proof {
                lemma_split_u64(t);
                assert((t >> 32u64) <= 1) by (bit_vector)
                    requires
                        t < 0x2_0000_0000u64,
                ;
            }
            let ghost pre = a@;
            let ghost c0 = carry;
            a[i] = t as u32;
            carry = (t >> 32u64) as u32;
            proof {
                lemma_limbs_val_take_step(a@, i as int);
                lemma_limbs_val_take_step(a1, i as int);
                lemma_limbs_val_take_step(L_LIMBS@, i as int);
                assert(a@.take(i as int) =~= pre.take(i as int));
                let rp = rpow(i as nat);
                let ly = limbs_val(L_LIMBS@.take(i as int));
                let li = L_LIMBS[i as int] as int;
                assert(borrow * (ly + li * rp) == borrow * ly + (y as int) * rp) by (nonlinear_arith)
                    requires
                        (borrow == 0 && y == 0) || (borrow == 1 && y == li),
                ;
                lemma_add_step(
                    x as int,
                    y as int,
                    c0 as int,
                    t as int,
                    (t as u32) as int,
                    carry as int,
                    limbs_val(a1.take(i as int)) as int,
                    borrow * ly,
                    limbs_val(pre.take(i as int)) as int,
                    rp as int,
                );
                assert(rpow((i + 1) as nat) == 4294967296 * rpow(i as nat));
            }
            i += 1;
        }
        proof {
            assert(a@.take(8) =~= a@);
            assert(a1.take(8) =~= a1);
            assert(L_LIMBS@.take(8) =~= L_LIMBS@);
            lemma_const_values();
            lemma_rpow_values();
            lemma_limbs_val_bound(a@);
            lemma_limbs_val_bound(self.0@);
            lemma_limbs_val_bound(b.0@);
            let w = rpow(8) as int;
            let x = limbs_val(a0) as int;
            let y = limbs_val(b.0@) as int;
            // d == x - y + borrow * w with 0 <= d < w
            lemma_limbs_val_bound(a1);
            if x >= y {
                assert(borrow == 0);
                lemma_mod_of_split(limbs_val(a@) as int, carry as int, limbs_val(a@) as int, w);
            } else {
                assert(borrow == 1);
                lemma_mod_of_split((d + group_order()) as int, carry as int, limbs_val(a@) as int, w);
                lemma_mod_multiples_vanish(1, x - y + group_order(), w);
            }
        }
        Scalar(a)
    }
}

impl Scalar {
    /// Computes `self + b` modulo 2^256, then subtracts `L` as `sub` does.
    pub fn add(self, b: Scalar) -> (r: Scalar)
        ensures
            r@ == sub_spec((self@ + b@) % rpow(8), group_order()),
    {
        let mut a = self.0;
        let ghost a0 = self.0@;
        let mut carry: u32 = 0;
        let mut i: usize = 0;
        proof {
            assert(a@.take(0).len() == 0);
            assert(b.0@.take(0).len() == 0);
        }
        while i < 8
            invariant
                0 <= i <= 8,
                a0 == self.0@,
                carry <= 1,
                forall|k: int| i <= k < 8 ==> a@[k] == a0[k],
                limbs_val(a@.take(i as int)) + carry * rpow(i as nat) == limbs_val(a0.take(i as int))
                    + limbs_val(b.0@.take(i as int)),
            decreases 8 - i,
        {
            let x = a[i];
            let y = b.0[i];
            let t: u64 = x as u64 + y as u64 + carry as u64;
            proof {
                lemma_split_u64(t);
                assert((t >> 32u64) <= 1) by (bit_vector)
                    requires
                        t < 0x2_0000_0000u64,
                ;
            }
            let ghost pre = a@;
            let ghost c0 = carry;
            a[i] = t as u32;
            carry = (t >> 32u64) as u32;
            proof {
                lemma_limbs_val_take_step(a@, i as int);
                lemma_limbs_val_take_step(a0, i as int);
                lemma_limbs_val_take_step(b.0@, i as int);
                assert(a@.take(i as int) =~= pre.take(i as int));
                lemma_add_step(
                    x as int,
                    y as int,
                    c0 as int,
                    t as int,
                    (t as u32) as int,
                    carry as int,
                    limbs_val(a0.take(i as int)) as int,
                    limbs_val(b.0@.take(i as int)) as int,
                    limbs_val(pre.take(i as int)) as int,
                    rpow(i as nat) as int,
                );
                assert(rpow((i + 1) as nat) == 4294967296 * rpow(i as nat));
            }
            i += 1;
        }
        proof {
            assert(a@.take(8) =~= a@);
            assert(a0.take(8) =~= a0);
            assert(b.0@.take(8) =~= b.0@);
            lemma_limbs_val_bound(a@);
            lemma_rpow_pos(8);
            lemma_mod_of_split(
                (limbs_val(a0) + limbs_val(b.0@)) as int,
                carry as int,
                limbs_val(a@) as int,
                rpow(8) as int,
            );
            lemma_const_values();
        }
        Scalar(a).sub(Scalar(L_LIMBS))
    }
}

impl Scalar512 {
    /// Computes `self + b`; the sum must fit in 512 bits.
    pub fn add(self, b: Scalar512) -> (r: Scalar512)
        requires
            self@ + b@ < rpow(16),
        ensures
            r@ == self@ + b@,
    {
        let mut a = self.0;
        let ghost a0 = self.0@;
        let mut carry: u32 = 0;
        let mut i: usize = 0;
        proof {
            assert(a@.take(0).len() == 0);
            assert(b.0@.take(0).len() == 0);
        }
        while i < 16
            invariant
                0 <= i <= 16,
                a0 == self.0@,
                carry <= 1,
                forall|k: int| i <= k < 16 ==> a@[k] == a0[k],
                limbs_val(a@.take(i as int)) + carry * rpow(i as nat) == limbs_val(a0.take(i as int))
                    + limbs_val(b.0@.take(i as int)),
            decreases 16 - i,
        {
            let x = a[i];
            let y = b.0[i];
            let t: u64 = x as u64 + y as u64 + carry as u64;
            proof {
                lemma_split_u64(t);
                assert((t >> 32u64) <= 1) by (bit_vector)
                    requires
                        t < 0x2_0000_0000u64,
                ;
            }
            let ghost pre = a@;
            let ghost c0 = carry;
            a[i] = t as u32;
            carry = (t >> 32u64) as u32;
            proof {
                lemma_limbs_val_take_step(a@, i as int);
                lemma_limbs_val_take_step(a0, i as int);
                lemma_limbs_val_take_step(b.0@, i as int);
                assert(a@.take(i as int) =~= pre.take(i as int));
                lemma_add_step(
                    x as int,
                    y as int,
                    c0 as int,
                    t as int,
                    (t as u32) as int,
                    carry as int,
                    limbs_val(a0.take(i as int)) as int,
                    limbs_val(b.0@.take(i as int)) as int,
                    limbs_val(pre.take(i as int)) as int,
                    rpow(i as nat) as int,
                );
                assert(rpow((i + 1) as nat) == 4294967296 * rpow(i as nat));
            }
            i += 1;
        }
        proof {
            assert(a@.take(16) =~= a@);
            assert(a0.take(16) =~= a0);
            assert(b.0@.take(16) =~= b.0@);
            lemma_limbs_val_bound(a@);
            let c = carry as int;
            let w = rpow(16) as int;
            let v = limbs_val(a@) as int;
            lemma_rpow_pos(16);
            let s0 = (limbs_val(a0) + limbs_val(b.0@)) as int;
            assert(v == s0) by (nonlinear_arith)
                requires
                    w > 0,
                    v + c * w == s0,
                    s0 < w,
                    0 <= v,
                    0 <= c,
            ;
        }
        Scalar512(a)
    }
}

/// Products of two 32-bit limbs fit in 64 bits with room for two more limbs.
proof fn lemma_mul_u32_bound(x: u32, y: u32)
    ensures
        (x as nat) * (y as nat) <= 0xffff_fffe_0000_0001,
{
    assert((x as nat) * (y as nat) <= 0xffff_ffff * 0xffff_ffff) by (nonlinear_arith)
        requires
            x <= 0xffff_ffff,
            y <= 0xffff_ffff,
    ;
}

/// One multiply-accumulate step: `t = x * y + old + c` replaces the limb `old` of weight `rp`.
proof fn lemma_mac_step(x: int, y: int, old: int, c: int, t: int, lo: int, c2: int, v0: int, v1: int, rp: int)
    requires
        0 <= t,
        t == x * y + old + c,
        lo == t % 4294967296,
        c2 == t / 4294967296,
        v1 + old * rp == v0 + lo * rp,
    ensures
        v1 + c2 * (4294967296 * rp) == v0 + c * rp + x * y * rp,
{
    lemma_fundamental_div_mod(t, 4294967296);
    assert(v1 + c2 * (4294967296 * rp) == v0 + c * rp + x * y * rp) by (nonlinear_arith)
        requires
            t == 4294967296 * c2 + lo,
            t == x * y + old + c,
            v1 + old * rp == v0 + lo * rp,
    ;
}

proof fn lemma_row_step(v0: int, v1: int, c: int, c2: int, acc: int, x: int, bj: int, y: int, ri: int, rj: int, rp: int)
    requires
        v1 + c2 * (4294967296 * rp) == v0 + c * rp + x * y * rp,
        v0 + c * rp == acc + x * bj * ri,
        rp == ri * rj,
    ensures
        v1 + c2 * (4294967296 * rp) == acc + x * (bj + y * rj) * ri,
{
    assert(x * y * rp == x * (y * rj) * ri) by (nonlinear_arith)
        requires
            rp == ri * rj,
    ;
    assert(x * bj * ri + x * (y * rj) * ri == x * (bj + y * rj) * ri) by (nonlinear_arith);
}

impl Scalar {
    /// The full 512-bit product `self * b`, by schoolbook multiplication.
    pub fn raw_mul(self, b: Scalar) -> (r: Scalar512)
        ensures
            r@ == self@ * b@,
    {
        let a = self;
        let mut res = [0u32; 16];
        let ghost bv = limbs_val(b.0@);
        proof {
            lemma_limbs_val_zeros(res@);
            assert(a.0@.take(0).len() == 0);
            assert(limbs_val(a.0@.take(0)) == 0);
            assert(0 * bv == 0);
        }
        let mut i: usize = 0;
        while i < 8
            invariant
                0 <= i <= 8,
                bv == limbs_val(b.0@),
                limbs_val(res@) == limbs_val(a.0@.take(i as int)) * bv,
            decreases 8 - i,
        {
            let ghost ai = limbs_val(a.0@.take(i as int));
            let xi = a.0[i];
            let mut carry: u32 = 0;
            let mut j: usize = 0;
            proof {
                assert(b.0@.take(0).len() == 0);
                assert(limbs_val(b.0@.take(0)) == 0);
                assert(rpow((i + 0) as nat) == rpow(i as nat));
                let ri = rpow(i as nat);
                assert(0 * ri == 0 && (xi as nat) * 0 * ri == 0) by (nonlinear_arith);
            }
            while j < 8
                invariant
                    0 <= i < 8,
                    0 <= j <= 8,
                    xi == a.0@[i as int],
                    bv == limbs_val(b.0@),
                    ai == limbs_val(a.0@.take(i as int)),
                    limbs_val(res@) + carry * rpow((i + j) as nat) == ai * bv + xi * limbs_val(
                        b.0@.take(j as int),
                    ) * rpow(i as nat),
                decreases 8 - j,
            {
                let y = b.0[j];
                proof {
                    lemma_mul_u32_bound(xi, y);
                }
                let old = res[i + j];
                let t: u64 = (xi as u64) * (y as u64) + (old as u64) + (carry as u64);
                proof {
                    lemma_split_u64(t);
                }
                let ghost pre = res@;
                let ghost c0 = carry;
                res[i + j] = t as u32;
                carry = (t >> 32u64) as u32;
                proof {
                    assert(res@ =~= pre.update((i + j) as int, t as u32));
                    lemma_limbs_val_update(pre, (i + j) as int, t as u32);
                    lemma_limbs_val_take_step(b.0@, j as int);
                    lemma_rpow_add(i as nat, j as nat);
                    let rp = rpow((i + j) as nat);
                    lemma_mac_step(
                        xi as int,
                        y as int,
                        old as int,
                        c0 as int,
                        t as int,
                        (t as u32) as int,
                        carry as int,
                        limbs_val(pre) as int,
                        limbs_val(res@) as int,
                        rp as int,
                    );
                    lemma_row_step(
                        limbs_val(pre) as int,
                        limbs_val(res@) as int,
                        c0 as int,
                        carry as int,
                        (ai * bv) as int,
                        xi as int,
                        limbs_val(b.0@.take(j as int)) as int,
                        y as int,
                        rpow(i as nat) as int,
                        rpow(j as nat) as int,
                        rp as int,
                    );
                    assert(rpow((i + j + 1) as nat) == 4294967296 * rp);
                }
                j += 1;
            }
            proof {
                assert(b.0@.take(8) =~= b.0@);
            }
            while j < 16 - i
                invariant
                    0 <= i < 8,
                    8 <= j <= 16 - i,
                    bv == limbs_val(b.0@),
                    ai == limbs_val(a.0@.take(i as int)),
                    xi == a.0@[i as int],
                    limbs_val(res@) + carry * rpow((i + j) as nat) == ai * bv + xi * bv * rpow(
                        i as nat,
                    ),
                decreases 16 - i - j,
            {
                let old = res[i + j];
                let t: u64 = (old as u64) + (carry as u64);
                proof {
                    lemma_split_u64(t);
                }
                let ghost pre = res@;
                let ghost c0 = carry;
                res[i + j] = t as u32;
                carry = (t >> 32u64) as u32;
                proof {
                    assert(res@ =~= pre.update((i + j) as int, t as u32));
                    lemma_limbs_val_update(pre, (i + j) as int, t as u32);
                    let rp = rpow((i + j) as nat);
                    lemma_mac_step(
                        0,
                        0,
                        old as int,
                        c0 as int,
                        t as int,
                        (t as u32) as int,
                        carry as int,
                        limbs_val(pre) as int,
                        limbs_val(res@) as int,
                        rp as int,
                    );
                    assert(rpow((i + j + 1) as nat) == 4294967296 * rp);
                }
                j += 1;
            }
            proof {
                lemma_limbs_val_take_step(a.0@, i as int);
                let a1 = limbs_val(a.0@.take(i as int + 1));
                lemma_limbs_val_bound(a.0@.take(i as int + 1));
                lemma_limbs_val_bound(b.0@);
                lemma_rpow_add((i + 1) as nat, 8);
                lemma_rpow_mono((i + 9) as nat, 16);
                assert((i + j) as nat == 16);
                let ri = rpow(i as nat);
                assert(ai * bv + xi * bv * ri == (ai + xi * ri) * bv) by (nonlinear_arith);
                let r1 = rpow((i + 1) as nat);
                let r8 = rpow(8);
                let r16 = rpow(16);
                assert(a1 * bv < r16) by (nonlinear_arith)
                    requires
                        a1 < r1,
                        bv < r8,
                        r1 * r8 <= r16,
                ;
                let v = limbs_val(res@);
                let c = carry as nat;
                lemma_rpow_pos(16);
                assert(c == 0) by (nonlinear_arith)
                    requires
                        v + c * r16 < r16,
                        r16 > 0,
                ;
            }
            i += 1;
        }
        proof {
            assert(a.0@.take(8) =~= a.0@);
        }
        Scalar512(res)
    }
}

/// `LFACTOR` makes the next limb vanish: `x + L[0] * (x * LFACTOR mod 2^32) = 0 (mod 2^32)`.
proof fn lemma_lfactor(x: u32, m: u32)
    requires
        m == ((x as u64) * 0x12547e1bu64) as u32,
    ensures
        ((0x5cf5d3edu64 * (m as u64) + (x as u64)) as u32) == 0,
{
    assert(((0x5cf5d3edu64 * (m as u64) + (x as u64)) as u32) == 0) by (bit_vector)
        requires
            m == ((x as u64) * 0x12547e1bu64) as u32,
    ;
}

/// The quotient that makes `t + q * l` divisible by `w` is unique below `w`.
proof fn lemma_mont_q_unique(t: int, q: int, w: int, l: int, linv: int, d: int)
    requires
        w > 0,
        0 <= q < w,
        (t + q * l) % w == 0,
        l * linv == 1 + d * w,
    ensures
        q == ((-t) * linv) % w,
{
    lemma_fundamental_div_mod(t + q * l, w);
    let c = (t + q * l) / w;
    assert(q == w * (c * linv - q * d) + (-t) * linv) by (nonlinear_arith)
        requires
            t + q * l == w * c,
            l * linv == 1 + d * w,
    ;
    lemma_mod_multiples_vanish(c * linv - q * d, (-t) * linv, w);
    lemma_small_mod(q as nat, w as nat);
}

/// The concrete facts about `L` and its inverse modulo 2^256.
proof fn lemma_l_inv()
    ensures
        (group_order() as int) * (l_inv() as int) == 1
            + 2778502047630274662326704370728753617212423217691554349410953219959239919305int
            * (rpow(8) as int),
{
    lemma_rpow_values();
}

impl Scalar512 {
    /// Montgomery reduction: `self / 2^256 (mod L)`, with one conditional subtraction of `L`.
    pub fn montgomery_reduce(self) -> (r: Scalar)
        requires
            mont_ok(self@),
        ensures
            r@ == mont_spec(self@),
    {
        let mut t = self.0;
        let ghost t0 = limbs_val(self.0@);
        let ghost mut mq: nat = 0;
        let ghost mut dropped: nat = 0;
        let ghost lv = group_order();
        let ghost r16 = rpow(16);
        proof {
            lemma_const_values();
            assert(rpow(0) == 1);
            assert(0 * lv == 0 && 0 * r16 == 0) by (nonlinear_arith);
        }
        let mut i: usize = 0;
        while i < 8
            invariant
                0 <= i <= 8,
                t0 == limbs_val(self.0@),
                lv == group_order(),
                lv == limbs_val(L_LIMBS@),
                r16 == rpow(16),
                limbs_val(t@) + dropped * r16 == t0 + mq * lv,
                mq < rpow(i as nat),
                forall|k: int| 0 <= k < i ==> t@[k] == 0,
            decreases 8 - i,
        {
            let ghost dd = dropped * r16;
            let ghost acc = t0 + mq * lv;
            let x0 = t[i];
            let m: u32 = ((x0 as u64) * (LFACTOR as u64)) as u32;
            let mut carry: u32 = 0;
            let mut j: usize = 0;
            proof {
                assert(L_LIMBS@.take(0).len() == 0);
                assert(limbs_val(L_LIMBS@.take(0)) == 0);
                assert(rpow((i + 0) as nat) == rpow(i as nat));
                let ri = rpow(i as nat);
                assert(0 * ri == 0 && (m as nat) * 0 * ri == 0) by (nonlinear_arith);
            }
            while j < 8
                invariant
                    0 <= i < 8,
                    0 <= j <= 8,
                    x0 == (if j == 0 { t@[i as int] } else { x0 }),
                    m == ((x0 as u64) * 0x12547e1bu64) as u32,
                    j >= 1 ==> t@[i as int] == 0,
                    j == 0 ==> carry == 0,
                    forall|k: int| 0 <= k < i ==> t@[k] == 0,
                    dd == dropped * r16,
                    acc == t0 + mq * lv,
                    limbs_val(t@) + dd + carry * rpow((i + j) as nat) == acc + m * limbs_val(
                        L_LIMBS@.take(j as int),
                    ) * rpow(i as nat),
                decreases 8 - j,
            {
                let y = L_LIMBS[j];
                proof {
                    lemma_mul_u32_bound(y, m);
                }
                let old = t[i + j];
                let tt: u64 = (y as u64) * (m as u64) + (old as u64) + (carry as u64);
                proof {
                    lemma_split_u64(tt);
                    if j == 0 {
                        assert(y == 0x5cf5d3ed);
                        lemma_lfactor(x0, m);
                        assert((tt as u32) == 0);
                    }
                }
                let ghost pre = t@;
                let ghost c0 = carry;
                t[i + j] = tt as u32;
                carry = (tt >> 32u64) as u32;
                proof {
                    assert(t@ =~= pre.update((i + j) as int, tt as u32));
                    lemma_limbs_val_update(pre, (i + j) as int, tt as u32);
                    lemma_limbs_val_take_step(L_LIMBS@, j as int);
                    lemma_rpow_add(i as nat, j as nat);
                    let rp = rpow((i + j) as nat);
                    lemma_mac_step(
                        y as int,
                        m as int,
                        old as int,
                        c0 as int,
                        tt as int,
                        (tt as u32) as int,
                        carry as int,
                        (limbs_val(pre) + dd) as int,
                        (limbs_val(t@) + dd) as int,
                        rp as int,
                    );
                    assert((y as int) * (m as int) == (m as int) * (y as int)) by (nonlinear_arith);
                    lemma_row_step(
                        (limbs_val(pre) + dd) as int,
                        (limbs_val(t@) + dd) as int,
                        c0 as int,
                        carry as int,
                        acc as int,
                        m as int,
                        limbs_val(L_LIMBS@.take(j as int)) as int,
                        y as int,
                        rpow(i as nat) as int,
                        rpow(j as nat) as int,
                        rp as int,
                    );
                    assert(rpow((i + j + 1) as nat) == 4294967296 * rp);
                }
                j += 1;
            }
            proof {
                assert(L_LIMBS@.take(8) =~= L_LIMBS@);
            }
            while j < 16 - i
                invariant
                    0 <= i < 8,
                    8 <= j <= 16 - i,
                    t@[i as int] == 0,
                    forall|k: int| 0 <= k < i ==> t@[k] == 0,
                    dd == dropped * r16,
                    acc == t0 + mq * lv,
                    lv == limbs_val(L_LIMBS@),
                    limbs_val(t@) + dd + carry * rpow((i + j) as nat) == acc + m * lv * rpow(
                        i as nat,
                    ),
                decreases 16 - i - j,
            {
                let old = t[i + j];
                let tt: u64 = (old as u64) + (carry as u64);
                proof {
                    lemma_split_u64(tt);
                }
                let ghost pre = t@;
                let ghost c0 = carry;
                t[i + j] = tt as u32;
                carry = (tt >> 32u64) as u32;
                proof {
                    assert(t@ =~= pre.update((i + j) as int, tt as u32));
                    lemma_limbs_val_update(pre, (i + j) as int, tt as u32);
                    let rp = rpow((i + j) as nat);
                    lemma_mac_step(
                        0,
                        0,
                        old as int,
                        c0 as int,
                        tt as int,
                        (tt as u32) as int,
                        carry as int,
                        (limbs_val(pre) + dd) as int,
                        (limbs_val(t@) + dd) as int,
                        rp as int,
                    );
                    assert(rpow((i + j + 1) as nat) == 4294967296 * rp);
                }
                j += 1;
            }
            proof {
                assert((i + j) as nat == 16);
                let ri = rpow(i as nat);
                let c = carry as nat;
                let mq2 = mq + (m as nat) * ri;
                assert(acc + m * lv * ri == t0 + mq2 * lv) by (nonlinear_arith)
                    requires
                        acc == t0 + mq * lv,
                        mq2 == mq + (m as nat) * ri,
                ;
                assert(dd + c * r16 == (dropped + c) * r16) by (nonlinear_arith)
                    requires
                        dd == dropped * r16,
                ;
                assert(mq2 < 4294967296 * ri) by (nonlinear_arith)
                    requires
                        mq < ri,
                        m <= 0xffff_ffffu32,
                        mq2 == mq + (m as nat) * ri,
                ;
                assert(rpow((i + 1) as nat) == 4294967296 * ri);
                dropped = dropped + c;
                mq = mq2;
            }
            i += 1;
        }
        let hi: [u32; 8] = [t[8], t[9], t[10], t[11], t[12], t[13], t[14], t[15]];
        proof {
            let w = rpow(8);
            assert(hi@ =~= t@.skip(8));
            lemma_limbs_val_split(t@, 8);
            lemma_limbs_val_zeros(t@.take(8));
            let h = limbs_val(hi@);
            lemma_limbs_val_bound(hi@);
            lemma_rpow_values();
            lemma_rpow_pos(8);
            let s0 = t0 + mq * lv;
            assert(s0 == w * (h + dropped * w)) by (nonlinear_arith)
                requires
                    limbs_val(t@) == w * h,
                    limbs_val(t@) + dropped * r16 == s0,
                    r16 == w * w,
            ;
            lemma_mod_multiples_vanish((h + dropped * w) as int, 0, w as int);
            assert(s0 as int % w as int == 0);
            lemma_l_inv();
            lemma_mont_q_unique(
                t0 as int,
                mq as int,
                w as int,
                lv as int,
                l_inv() as int,
                2778502047630274662326704370728753617212423217691554349410953219959239919305int,
            );
            assert(mq == mont_q(t0));
            assert(s0 < r16);
            assert(dropped == 0) by (nonlinear_arith)
                requires
                    s0 == w * (h + dropped * w),
                    s0 < r16,
                    r16 == w * w,
                    w > 0,
            ;
            assert(s0 == h * w) by (nonlinear_arith)
                requires
                    s0 == w * (h + dropped * w),
                    dropped == 0,
            ;
            vstd::arithmetic::div_mod::lemma_div_multiples_vanish(h as int, w as int);
            assert(h == mont_u(t0));
            lemma_small_mod(h, w);
        }
        Scalar(hi).sub(Scalar(L_LIMBS))
    }
}

/// The inverse of 2^256 modulo `L`.
pub open spec fn w_inv() -> nat {
    4458503529701987551646482192314240623644693141688353256590997718326214331684nat
}

proof fn lemma_w_inv()
    ensures
        (rpow(8) as int) * (w_inv() as int) == 1
            + 71336056475231800826343715077027849978041630819377026201054086228062141447707int
            * (group_order() as int),
        r_const() == rpow(8) % group_order(),
        rr_const() == (rpow(8) * rpow(8)) % group_order(),
        2 * group_order() < rpow(8),
{
    lemma_rpow_values();
}

/// Multiplying by 2^256 is injective modulo `L`.
pub proof fn lemma_cancel_w(a: int, b: int)
    requires
        (a * (rpow(8) as int)) % (group_order() as int) == (b * (rpow(8) as int)) % (
        group_order() as int),
    ensures
        a % (group_order() as int) == b % (group_order() as int),
{
    let l = group_order() as int;
    let w = rpow(8) as int;
    let v = w_inv() as int;
    let e = 71336056475231800826343715077027849978041630819377026201054086228062141447707int;
    lemma_w_inv();
    lemma_fundamental_div_mod(a * w, l);
    lemma_fundamental_div_mod(b * w, l);
    let r = (a * w) % l;
    let k1 = (a * w) / l;
    let k2 = (b * w) / l;
    assert(a == l * (k1 * v - a * e) + r * v) by (nonlinear_arith)
        requires
            a * w == l * k1 + r,
            w * v == 1 + e * l,
    ;
    assert(b == l * (k2 * v - b * e) + r * v) by (nonlinear_arith)
        requires
            b * w == l * k2 + r,
            w * v == 1 + e * l,
    ;
    lemma_mod_multiples_vanish(k1 * v - a * e, r * v, l);
    lemma_mod_multiples_vanish(k2 * v - b * e, r * v, l);
}

/// What the Montgomery reduction of `t` computes: a number `m` with `m * 2^256 = t (mod L)`,
/// below `L` when `t < 2^256 * L`, and in any case below `L` or below `t / 2^256`.
pub proof fn lemma_mont_spec(t: nat)
    ensures
        ((mont_spec(t) * rpow(8)) as int) % (group_order() as int) == (t as int) % (
        group_order() as int),
        t < rpow(8) * group_order() ==> mont_spec(t) < group_order(),
        mont_spec(t) < group_order() || mont_spec(t) * rpow(8) < t,
{
    let l = group_order() as int;
    let w = rpow(8) as int;
    let q = mont_q(t) as int;
    let u = mont_u(t) as int;
    let li = l_inv() as int;
    let d = 2778502047630274662326704370728753617212423217691554349410953219959239919305int;
    lemma_l_inv();
    lemma_rpow_values();
    lemma_fundamental_div_mod(-(t as int) * li, w);
    let k = (-(t as int) * li) / w;
    assert(0 <= q < w);
    assert((t as int) + q * l == w * (-(t as int) * d - k * l)) by (nonlinear_arith)
        requires
            -(t as int) * li == w * k + q,
            l * li == 1 + d * w,
    ;
    let c = -(t as int) * d - k * l;
    vstd::arithmetic::div_mod::lemma_div_multiples_vanish(c, w);
    assert((t as int) + q * l == u * w) by (nonlinear_arith)
        requires
            (t as int) + q * l == w * c,
            u == (w * c) / w,
            (w * c) / w == c,
    ;
    // the result is u or u - l, both congruent to u
    let m = mont_spec(t) as int;
    assert(m == u || m == u - l);
    assert(m * w == (t as int) + q * l || m * w == (t as int) + q * l - l * w) by (nonlinear_arith)
        requires
            m == u || m == u - l,
            (t as int) + q * l == u * w,
    ;
    if m * w == (t as int) + q * l {
        lemma_mod_multiples_vanish(q, t as int, l);
    } else {
        lemma_mod_multiples_vanish(q - w, t as int, l);
    }
    assert(q * l < w * l) by (nonlinear_arith)
        requires
            0 <= q < w,
            l > 0,
    ;
    if (t as int) < w * l {
        assert(u < 2 * l) by (nonlinear_arith)
            requires
                u * w == (t as int) + q * l,
                (t as int) < w * l,
                q * l < w * l,
                w > 0,
        ;
    }
    if m >= l {
        assert(m == u - l);
        assert(m * w < (t as int)) by (nonlinear_arith)
            requires
                m == u - l,
                u * w == (t as int) + q * l,
                q * l < w * l,
        ;
    }
}

/// `t + q * L` stays below 2^512 when `t < 2^256 * (2^256 - L)`.
pub proof fn lemma_mont_ok(t: nat)
    requires
        t < rpow(8) * (rpow(8) - group_order()),
    ensures
        mont_ok(t),
{
    let l = group_order() as int;
    let w = rpow(8) as int;
    let q = mont_q(t) as int;
    lemma_rpow_values();
    assert(q < w);
    assert(q * l <= w * l) by (nonlinear_arith)
        requires
            0 <= q < w,
            l > 0,
    ;
    assert(w * (w - l) + w * l == w * w) by (nonlinear_arith);
}

impl Scalar {
    /// Reduces `self` modulo `L`, by a Montgomery multiplication with `R`.
    pub fn reduce(&self) -> (r: Scalar)
        ensures
            r@ == self@ % group_order(),
    {
        let t = self.raw_mul(Scalar(R_LIMBS));
        proof {
            lemma_const_values();
            lemma_rpow_values();
            lemma_w_inv();
            lemma_limbs_val_bound(self.0@);
            let x = self@;
            let w = rpow(8);
            assert(x * r_const() < w * group_order()) by (nonlinear_arith)
                requires
                    x < w,
                    r_const() < group_order(),
            ;
            assert(w * group_order() <= w * (w - group_order())) by (nonlinear_arith)
                requires
                    2 * group_order() < w,
            ;
            lemma_mont_ok(t@);
        }
        let r = t.montgomery_reduce();
        proof {
            let x = self@ as int;
            let l = group_order() as int;
            let w = rpow(8) as int;
            lemma_mont_spec(t@);
            // m * w == x * R == x * w (mod L)
            vstd::arithmetic::div_mod::lemma_mul_mod_noop_right(x, w, l);
            assert((r@ as int * w) % l == (x * w) % l);
            lemma_cancel_w(r@ as int, x);
            lemma_small_mod(r@, group_order());
        }
        r
    }

    /// Computes `self * rhs (mod L)` by two Montgomery multiplications.
    pub fn mul(self, rhs: Scalar) -> (r: Scalar)
        requires
            mont_ok(self@ * rhs@),
        ensures
            r@ == (self@ * rhs@) % group_order(),
    {
        let t1 = self.raw_mul(rhs);
        let m1 = t1.montgomery_reduce();
        let t2 = m1.raw_mul(Scalar(RR_LIMBS));
        proof {
            lemma_const_values();
            lemma_rpow_values();
            lemma_w_inv();
            lemma_limbs_val_bound(m1.0@);
            let w = rpow(8);
            assert(m1@ * rr_const() < w * group_order()) by (nonlinear_arith)
                requires
                    m1@ < w,
                    rr_const() < group_order(),
            ;
            assert(w * group_order() <= w * (w - group_order())) by (nonlinear_arith)
                requires
                    2 * group_order() < w,
            ;
            lemma_mont_ok(t2@);
        }
        let r = t2.montgomery_reduce();
        proof {
            let l = group_order() as int;
            let w = rpow(8) as int;
            let ab = (self@ * rhs@) as int;
            let a1 = m1@ as int;
            lemma_mont_spec(t1@);
            lemma_mont_spec(t2@);
            // r * w == a1 * RR == a1 * w * w (mod L)
            vstd::arithmetic::div_mod::lemma_mul_mod_noop_right(a1, w * w, l);
            assert((r@ as int * w) % l == ((a1 * w) * w) % l) by {
                assert(a1 * (w * w) == (a1 * w) * w) by (nonlinear_arith);
            }
            lemma_cancel_w(r@ as int, a1 * w);
            // a1 * w == ab (mod L)
            vstd::arithmetic::div_mod::lemma_mod_twice(ab, l);
            assert(r@ as int % l == ab % l);
            lemma_small_mod(r@, group_order());
        }
        r
    }
}

/// Reads the little-endian 32-bit word at bytes `4k .. 4k + 4`.
fn load_word(b: &[u8], k: usize) -> (w: u32)
    requires
        4 * k + 3 < b.len(),
    ensures
        w as nat == word_of(b@[4 * k as int], b@[4 * k + 1], b@[4 * k + 2], b@[4 * k + 3]),
{
    let b0 = b[4 * k] as u32;
    let b1 = b[4 * k + 1] as u32;
    let b2 = b[4 * k + 2] as u32;
    let b3 = b[4 * k + 3] as u32;
    b0 + b1 * 256 + b2 * 65536 + b3 * 16777216
}

/// The eight little-endian words of 32 bytes.
fn words_of_32(bytes: &[u8; 32]) -> (l: [u32; 8])
    ensures
        limbs_match_bytes(l@, bytes@),
{
    let mut l = [0u32; 8];
    let mut i: usize = 0;
    while i < 8
        invariant
            0 <= i <= 8,
            forall|k: int|
                0 <= k < i ==> #[trigger] l@[k] as nat == word_of(
                    bytes@[4 * k],
                    bytes@[4 * k + 1],
                    bytes@[4 * k + 2],
                    bytes@[4 * k + 3],
                ),
        decreases 8 - i,
    {
        l[i] = load_word(bytes, i);
        i += 1;
    }
    l
}

/// The sixteen little-endian words of 64 bytes.
fn words_of_64(bytes: &[u8; 64]) -> (l: [u32; 16])
    ensures
        limbs_match_bytes(l@, bytes@),
{
    let mut l = [0u32; 16];
    let mut i: usize = 0;
    while i < 16
        invariant
            0 <= i <= 16,
            forall|k: int|
                0 <= k < i ==> #[trigger] l@[k] as nat == word_of(
                    bytes@[4 * k],
                    bytes@[4 * k + 1],
                    bytes@[4 * k + 2],
                    bytes@[4 * k + 3],
                ),
        decreases 16 - i,
    {
        l[i] = load_word(bytes, i);
        i += 1;
    }
    l
}

/// The bytes of a 32-bit word, least significant first.
proof fn lemma_word_bytes(w: u32)
    ensures
        w as nat == word_of(
            (w & 0xff) as u8,
            ((w >> 8u32) & 0xff) as u8,
            ((w >> 16u32) & 0xff) as u8,
            ((w >> 24u32) & 0xff) as u8,
        ),
{
    let b0 = (w & 0xff) as u8;
    let b1 = ((w >> 8u32) & 0xff) as u8;
    let b2 = ((w >> 16u32) & 0xff) as u8;
    let b3 = ((w >> 24u32) & 0xff) as u8;
    assert(w == (b0 as u32) + (b1 as u32) * 256 + (b2 as u32) * 65536 + (b3 as u32) * 16777216) by (bit_vector)
        requires
            b0 == (w & 0xff) as u8,
            b1 == ((w >> 8u32) & 0xff) as u8,
            b2 == ((w >> 16u32) & 0xff) as u8,
            b3 == ((w >> 24u32) & 0xff) as u8,
    ;
}

impl Scalar {
    /// The 32 little-endian bytes of `self`.
    pub fn as_bytes(&self) -> (r: [u8; 32])
        ensures
            bytes_val(r@) == self@,
    {
        let mut r = [0u8; 32];
        let mut i: usize = 0;
        while i < 8
            invariant
                0 <= i <= 8,
                forall|k: int|
                    0 <= k < i ==> #[trigger] self.0@[k] as nat == word_of(
                        r@[4 * k],
                        r@[4 * k + 1],
                        r@[4 * k + 2],
                        r@[4 * k + 3],
                    ),
            decreases 8 - i,
        {
            let w = self.0[i];
            proof {
                lemma_word_bytes(w);
            }
            r[4 * i] = (w & 0xff) as u8;
            r[4 * i + 1] = ((w >> 8u32) & 0xff) as u8;
            r[4 * i + 2] = ((w >> 16u32) & 0xff) as u8;
            r[4 * i + 3] = ((w >> 24u32) & 0xff) as u8;
            i += 1;
        }
        proof {
            lemma_limbs_bytes_val(self.0@, r@);
        }
        r
    }

    /// The scalar `bytes mod L`, from 32 little-endian bytes.
    pub fn from_bytes_mod_order(bytes: [u8; 32]) -> (r: Scalar)
        ensures
            r@ == bytes_val(bytes@) % group_order(),
    {
        let s = Scalar(words_of_32(&bytes));
        proof {
            lemma_limbs_bytes_val(s.0@, bytes@);
        }
        s.reduce()
    }

    /// The scalar `bytes` if its 32 little-endian bytes hold a number below `L`.
    pub fn from_canonical_bytes(bytes: [u8; 32]) -> (r: Option<Scalar>)
        ensures
            r is Some <==> bytes_val(bytes@) < group_order(),
            r matches Some(s) ==> s@ == bytes_val(bytes@),
    {
        proof {
            lemma_bytes_val_top(bytes@);
            lemma_bpow_rpow(8);
            reveal_with_fuel(bpow, 32);
        }
        // Check that the high bit is not set
        if (bytes[31] >> 7u8) != 0u8 {
            proof {
                let b = bytes[31];
                assert(b >= 128) by (bit_vector)
                    requires
                        (b >> 7u8) != 0u8,
                ;
                assert(bytes@.last() == b);
                let p = bpow(31);
                assert(p == 0x1_0000_0000_0000_0000_0000_0000_0000_0000_0000_0000_0000_0000_0000_0000_0000_00);
                assert(128 * p <= (b as nat) * p) by (nonlinear_arith)
                    requires
                        b >= 128,
                ;
            }
            return None;
        }
        let candidate = Scalar(words_of_32(&bytes));
        proof {
            lemma_limbs_bytes_val(candidate.0@, bytes@);
        }
        let reduced = candidate.reduce();
        if candidate == reduced {
            proof {
                lemma_small_mod(0, 1);
                vstd::arithmetic::div_mod::lemma_mod_pos_bound(candidate@ as int, group_order() as int);
            }
            Some(candidate)
        } else {
            proof {
                if candidate@ < group_order() {
                    lemma_small_mod(candidate@, group_order());
                    lemma_limbs_val_injective(candidate.0@, reduced.0@);
                    assert(candidate.0@ =~= reduced.0@);
                    assert(candidate.0 == reduced.0);
                }
            }
            None
        }
    }

    /// The scalar congruent to the 64 little-endian bytes modulo `L`, by Montgomery reduction of
    /// `low * R + high * RR`, where `low` and `high` are the two 32-byte halves.
    pub fn from_bytes_mod_order_wide(bytes: &[u8; 64]) -> (r: Scalar)
        ensures
            r@ == mont_spec(
                bytes_val(bytes@.take(32)) * r_const() + bytes_val(bytes@.skip(32)) * rr_const(),
            ),
            r@ % group_order() == bytes_val(bytes@) % group_order(),
            r@ < r_const() + rr_const(),
    {
        let words = words_of_64(bytes);
        let low = Scalar([words[0], words[1], words[2], words[3], words[4], words[5], words[6], words[7]]);
        let high = Scalar(
            [words[8], words[9], words[10], words[11], words[12], words[13], words[14], words[15]],
        );
        let ghost lo = bytes_val(bytes@.take(32));
        let ghost hi = bytes_val(bytes@.skip(32));
        proof {
            assert(limbs_match_bytes(low.0@, bytes@.take(32))) by {
                assert forall|k: int| 0 <= k < 8 implies #[trigger] low.0@[k] as nat == word_of(
                    bytes@.take(32)[4 * k],
                    bytes@.take(32)[4 * k + 1],
                    bytes@.take(32)[4 * k + 2],
                    bytes@.take(32)[4 * k + 3],
                ) by {
                    assert(words@[k] as nat == word_of(bytes@[4 * k], bytes@[4 * k + 1], bytes@[4 * k + 2], bytes@[4 * k + 3]));
                }
            }
            assert(limbs_match_bytes(high.0@, bytes@.skip(32))) by {
                assert forall|k: int| 0 <= k < 8 implies #[trigger] high.0@[k] as nat == word_of(
                    bytes@.skip(32)[4 * k],
                    bytes@.skip(32)[4 * k + 1],
                    bytes@.skip(32)[4 * k + 2],
                    bytes@.skip(32)[4 * k + 3],
                ) by {
                    assert(words@[k + 8] as nat == word_of(bytes@[4 * (k + 8)], bytes@[4 * (k + 8) + 1], bytes@[4 * (k + 8) + 2], bytes@[4 * (k + 8) + 3]));
                }
            }
            lemma_limbs_bytes_val(low.0@, bytes@.take(32));
            lemma_limbs_bytes_val(high.0@, bytes@.skip(32));
        }
        let a = low.raw_mul(Scalar(R_LIMBS));
        let b = high.raw_mul(Scalar(RR_LIMBS));
        proof {
            lemma_const_values();
            lemma_rpow_values();
            lemma_w_inv();
            lemma_limbs_val_bound(low.0@);
            lemma_limbs_val_bound(high.0@);
            let w = rpow(8);
            assert(lo * r_const() + hi * rr_const() < w * (r_const() + rr_const())) by (nonlinear_arith)
                requires
                    lo < w,
                    hi < w,
            ;
            assert(w * (r_const() + rr_const()) <= w * (w - group_order())) by (nonlinear_arith)
                requires
                    r_const() + rr_const() <= w - group_order(),
            ;
            assert(w * (w - group_order()) <= w * w) by (nonlinear_arith);
        }
        let t = a.add(b);
        proof {
            lemma_mont_ok(t@);
        }
        let r = t.montgomery_reduce();
        proof {
            let l = group_order() as int;
            let w = rpow(8) as int;
            let x = lo as int;
            let y = hi as int;
            lemma_mont_spec(t@);
            lemma_bytes_val_split(bytes@, 32);
            lemma_bpow_rpow(8);
            // t == x * R + y * RR == (x + y * w) * w (mod L)
            vstd::arithmetic::div_mod::lemma_mul_mod_noop_right(x, w, l);
            vstd::arithmetic::div_mod::lemma_mul_mod_noop_right(y, w * w, l);
            vstd::arithmetic::div_mod::lemma_add_mod_noop(x * (r_const() as int), y * (rr_const() as int), l);
            vstd::arithmetic::div_mod::lemma_add_mod_noop(x * w, y * (w * w), l);
            assert(x * w + y * (w * w) == (x + y * w) * w) by (nonlinear_arith);
            lemma_cancel_w(r@ as int, x + y * w);
            if r@ >= group_order() {
                let m = r@ as int;
                assert(m < (r_const() + rr_const()) as int) by (nonlinear_arith)
                    requires
                        m * w < (t@ as int),
                        (t@ as int) < w * ((r_const() + rr_const()) as int),
                        w > 0,
                ;
            }
        }
        r
    }
}

impl PartialEq for Scalar {
    fn eq(&self, other: &Scalar) -> (r: bool) {
        let mut same = true;
        let mut i: usize = 0;
        while i < 8
            invariant
                0 <= i <= 8,
                same <==> self.0@.take(i as int) =~= other.0@.take(i as int),
            decreases 8 - i,
        {
            same = same && self.0[i] == other.0[i];
            proof {
                assert(self.0@.take(i + 1) =~= self.0@.take(i as int).push(self.0@[i as int]));
                assert(other.0@.take(i + 1) =~= other.0@.take(i as int).push(other.0@[i as int]));
                if self.0@.take(i + 1) =~= other.0@.take(i + 1) {
                    assert(self.0@.take(i + 1)[i as int] == other.0@.take(i + 1)[i as int]);
                    assert(self.0@.take(i as int) =~= self.0@.take(i + 1).drop_last());
                    assert(other.0@.take(i as int) =~= other.0@.take(i + 1).drop_last());
                }
            }
            i += 1;
        }
        proof {
            assert(self.0@.take(8) =~= self.0@);
            assert(other.0@.take(8) =~= other.0@);
            if self@ == other@ {
                lemma_limbs_val_injective(self.0@, other.0@);
            }
        }
        same
    }
}

impl Eq for Scalar {
}

impl vstd::std_specs::cmp::PartialEqSpecImpl for Scalar {
    open spec fn obeys_eq_spec() -> bool {
        true
    }

    open spec fn eq_spec(&self, other: &Scalar) -> bool {
        self@ == other@
    }
}

/// Law: on canonical scalars (below `L`), `Scalar::add` computes `(a + b) mod L`.
pub proof fn law_add_canonical(a: nat, b: nat)
    requires
        a < group_order(),
        b < group_order(),
    ensures
        sub_spec((a + b) % rpow(8), group_order()) == (a + b) % group_order(),
        (a + b) % group_order() < group_order(),
{
    lemma_w_inv();
    lemma_rpow_values();
    lemma_small_mod(a + b, rpow(8));
    let l = group_order();
    if a + b >= l {
        lemma_mod_of_split((a + b) as int, 1, (a + b - l) as int, l as int);
    } else {
        lemma_small_mod(a + b, l);
    }
}

/// Law: on canonical scalars, `Scalar::sub` computes `(a - b) mod L`.
pub proof fn law_sub_canonical(a: nat, b: nat)
    requires
        a < group_order(),
        b < group_order(),
    ensures
        sub_spec(a, b) as int == (a as int - b as int) % (group_order() as int),
        sub_spec(a, b) < group_order(),
{
    lemma_w_inv();
    lemma_rpow_values();
    let l = group_order() as int;
    if a >= b {
        lemma_small_mod((a - b) as nat, group_order());
    } else {
        let x = a as int - b as int + l;
        lemma_small_mod(x as nat, rpow(8));
        lemma_mod_of_split(a as int - b as int, -1, x, l);
    }
}

/// Law: on canonical scalars, subtracting `b` undoes adding `b`.
pub proof fn law_add_then_sub(a: nat, b: nat)
    requires
        a < group_order(),
        b < group_order(),
    ensures
        sub_spec(sub_spec((a + b) % rpow(8), group_order()), b) == a,
{
    law_add_canonical(a, b);
    let s = (a + b) % group_order();
    law_sub_canonical(s, b);
    let l = group_order() as int;
    vstd::arithmetic::div_mod::lemma_fundamental_div_mod((a + b) as int, l);
    let q = (a + b) as int / l;
    assert((s as int - b as int) == (a as int) + l * (-q)) by (nonlinear_arith)
        requires
            (a + b) as int == l * q + s as int,
    ;
    lemma_mod_multiples_vanish(-q, a as int, l);
    lemma_small_mod(a, group_order());
}

/// Law: reducing twice is reducing once.
pub proof fn law_reduce_idempotent(x: nat)
    ensures
        (x % group_order()) % group_order() == x % group_order(),
{
    vstd::arithmetic::div_mod::lemma_mod_twice(x as int, group_order() as int);
}

/// Law: two scalars can be multiplied (`Scalar::mul` admits them) when one of them is below
/// 2^255.
pub proof fn law_mul_defined(a: nat, b: nat)
    requires
        a < rpow(8),
        b < 0x8000_0000_0000_0000_0000_0000_0000_0000_0000_0000_0000_0000_0000_0000_0000_0000nat,
    ensures
        mont_ok(a * b),
        mont_ok(b * a),
{
    lemma_rpow_values();
    let w = rpow(8);
    let h = 0x8000_0000_0000_0000_0000_0000_0000_0000_0000_0000_0000_0000_0000_0000_0000_0000nat;
    assert(a * b < w * h && b * a == a * b) by (nonlinear_arith)
        requires
            a < w,
            b < h,
    ;
    assert(w * h <= w * (w - group_order())) by (nonlinear_arith)
        requires
            h <= w - group_order(),
    ;
    lemma_mont_ok(a * b);
}

/// Law: the wide reduction of 64 bytes `h` (the low half times `R` plus the high half times
/// `RR`, Montgomery-reduced) is congruent to `h` modulo `L` and below `R + RR`.
pub proof fn law_wide_reduction(h: Seq<u8>)
    requires
        h.len() == 64,
    ensures
        mont_spec(bytes_val(h.take(32)) * r_const() + bytes_val(h.skip(32)) * rr_const())
            % group_order() == bytes_val(h) % group_order(),
        mont_spec(bytes_val(h.take(32)) * r_const() + bytes_val(h.skip(32)) * rr_const())
            < r_const() + rr_const(),
{
    let lo = bytes_val(h.take(32));
    let hi = bytes_val(h.skip(32));
    let t = lo * r_const() + hi * rr_const();
    crate::limbs::lemma_bytes_val_bound(h.take(32));
    crate::limbs::lemma_bytes_val_bound(h.skip(32));
    lemma_bpow_rpow(8);
    lemma_const_values();
    lemma_rpow_values();
    lemma_w_inv();
    let w = rpow(8);
    assert(h.take(32).len() == 32 && h.skip(32).len() == 32);
    assert(t < w * (r_const() + rr_const())) by (nonlinear_arith)
        requires
            lo < w,
            hi < w,
            t == lo * r_const() + hi * rr_const(),
    ;
    let l = group_order() as int;
    let wi = w as int;
    let x = lo as int;
    let y = hi as int;
    let m = mont_spec(t);
    lemma_mont_spec(t);
    lemma_bytes_val_split(h, 32);
    vstd::arithmetic::div_mod::lemma_mul_mod_noop_right(x, wi, l);
    vstd::arithmetic::div_mod::lemma_mul_mod_noop_right(y, wi * wi, l);
    vstd::arithmetic::div_mod::lemma_add_mod_noop(x * (r_const() as int), y * (rr_const() as int), l);
    vstd::arithmetic::div_mod::lemma_add_mod_noop(x * wi, y * (wi * wi), l);
    assert(x * wi + y * (wi * wi) == (x + y * wi) * wi) by (nonlinear_arith);
    lemma_cancel_w(m as int, x + y * wi);
    if m >= group_order() {
        let mm = m as int;
        assert(mm < (r_const() + rr_const()) as int) by (nonlinear_arith)
            requires
                mm * wi < (t as int),
                (t as int) < wi * ((r_const() + rr_const()) as int),
                wi > 0,
        ;
    }
}

/// Law: when `a + b` fits in 256 bits, `Scalar::add` gives a value congruent to `a + b`
/// modulo `L`.
pub proof fn law_add_congruent(a: nat, b: nat)
    requires
        a + b < rpow(8),
    ensures
        sub_spec((a + b) % rpow(8), group_order()) % group_order() == (a + b) % group_order(),
{
    lemma_rpow_values();
    lemma_small_mod(a + b, rpow(8));
    let l = group_order() as int;
    if a + b >= group_order() {
        lemma_mod_multiples_vanish(1, (a + b - group_order()) as int, l);
    }
}

} // verus!
