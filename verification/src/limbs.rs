use vstd::prelude::*;

verus! {

/// `rpow(k)` is `(2^32)^k`, the weight of the `k`-th 32-bit limb.
pub open spec fn rpow(k: nat) -> nat
    decreases k,
{
    if k == 0 {
        1
    } else {
        4294967296 * rpow((k - 1) as nat)
    }
}

/// The little-endian value of a sequence of 32-bit limbs.
pub open spec fn limbs_val(s: Seq<u32>) -> nat
    decreases s.len(),
{
    if s.len() == 0 {
        0
    } else {
        limbs_val(s.drop_last()) + (s.last() as nat) * rpow((s.len() - 1) as nat)
    }
}

pub proof fn lemma_rpow_pos(k: nat)
    ensures
        rpow(k) > 0,
    decreases k,
{
    if k > 0 {
        lemma_rpow_pos((k - 1) as nat);
    }
}

pub proof fn lemma_rpow_add(a: nat, b: nat)
    ensures
        rpow(a + b) == rpow(a) * rpow(b),
    decreases a,
{
    if a == 0 {
        assert(a + b == b);
        assert(rpow(a) == 1);
        assert(rpow(a) * rpow(b) == rpow(b));
    } else {
        let a1 = (a - 1) as nat;
        lemma_rpow_add(a1, b);
        assert((a + b - 1) as nat == a1 + b);
        assert(rpow(a + b) == 4294967296 * rpow(a1 + b));
        let x = rpow(a1);
        let y = rpow(b);
        assert(4294967296 * (x * y) == (4294967296 * x) * y) by (nonlinear_arith);
        assert(rpow(a) == 4294967296 * x);
    }
}

pub proof fn lemma_rpow_mono(a: nat, b: nat)
    requires
        a <= b,
    ensures
        rpow(a) <= rpow(b),
{
    lemma_rpow_add(a, (b - a) as nat);
    lemma_rpow_pos((b - a) as nat);
    lemma_rpow_pos(a);
    let x = rpow(a);
    let y = rpow((b - a) as nat);
    assert(x <= x * y) by (nonlinear_arith)
        requires
            y >= 1,
    ;
}

/// Concrete values of the limb weights used by 256-bit and 512-bit numbers.
pub proof fn lemma_rpow_values()
    ensures
        rpow(1) == 0x1_0000_0000,
        rpow(8) == 0x1_0000_0000_0000_0000_0000_0000_0000_0000_0000_0000_0000_0000_0000_0000_0000_0000,
        rpow(16) == rpow(8) * rpow(8),
{
    reveal_with_fuel(rpow, 9);
    lemma_rpow_add(8, 8);
}

/// The value of the first `i + 1` limbs, from the value of the first `i`.
pub proof fn lemma_limbs_val_take_step(s: Seq<u32>, i: int)
    requires
        0 <= i < s.len(),
    ensures
        limbs_val(s.take(i + 1)) == limbs_val(s.take(i)) + (s[i] as nat) * rpow(i as nat),
{
    assert(s.take(i + 1).drop_last() =~= s.take(i));
}

/// A number of `n` limbs is smaller than `rpow(n)`.
pub proof fn lemma_limbs_val_bound(s: Seq<u32>)
    ensures
        limbs_val(s) < rpow(s.len()),
    decreases s.len(),
{
    if s.len() > 0 {
        let n1 = (s.len() - 1) as nat;
        lemma_limbs_val_bound(s.drop_last());
        let v = limbs_val(s.drop_last());
        let l = s.last() as nat;
        let w = rpow(n1);
        assert(v + l * w < 4294967296 * w) by (nonlinear_arith)
            requires
                v < w,
                l <= 4294967295,
        ;
    }
}

/// Replacing limb `k` by `v` changes the value by `(v - s[k]) * rpow(k)`.
pub proof fn lemma_limbs_val_update(s: Seq<u32>, k: int, v: u32)
    requires
        0 <= k < s.len(),
    ensures
        limbs_val(s.update(k, v)) + (s[k] as nat) * rpow(k as nat) == limbs_val(s) + (v as nat)
            * rpow(k as nat),
    decreases s.len(),
{
    let t = s.update(k, v);
    if k == s.len() - 1 {
        assert(t.drop_last() =~= s.drop_last());
    } else {
        assert(t.drop_last() =~= s.drop_last().update(k, v));
        lemma_limbs_val_update(s.drop_last(), k, v);
    }
}

/// Splitting a number at limb `i` into its low part and its high part.
pub proof fn lemma_limbs_val_split(s: Seq<u32>, i: int)
    requires
        0 <= i <= s.len(),
    ensures
        limbs_val(s) == limbs_val(s.take(i)) + rpow(i as nat) * limbs_val(s.skip(i)),
    decreases s.len(),
{
    if s.len() == i {
        assert(s.take(i) =~= s);
        assert(s.skip(i).len() == 0);
        assert(limbs_val(s.skip(i)) == 0);
        let a = rpow(i as nat);
        assert(a * 0 == 0) by (nonlinear_arith);
    } else {
        let d = s.drop_last();
        let n1 = (s.len() - 1) as nat;
        lemma_limbs_val_split(d, i);
        assert(d.take(i) =~= s.take(i));
        assert(s.skip(i).drop_last() =~= d.skip(i));
        assert(s.skip(i).last() == s.last());
        let hi = s.skip(i);
        assert(limbs_val(hi) == limbs_val(d.skip(i)) + (s.last() as nat) * rpow((hi.len() - 1) as nat));
        lemma_rpow_add(i as nat, (hi.len() - 1) as nat);
        assert(i + (hi.len() - 1) == n1);
        let a = rpow(i as nat);
        let b = rpow((hi.len() - 1) as nat);
        let x = limbs_val(d.skip(i));
        let l = s.last() as nat;
        assert(a * (x + l * b) == a * x + l * (a * b)) by (nonlinear_arith);
        assert(limbs_val(hi) == x + l * b);
        assert(limbs_val(s) == limbs_val(d) + l * rpow(n1));
        assert(a * b == rpow(n1));
    }
}

/// A number whose limbs are all zero is zero.
pub proof fn lemma_limbs_val_zeros(s: Seq<u32>)
    requires
        forall|k: int| 0 <= k < s.len() ==> s[k] == 0,
    ensures
        limbs_val(s) == 0,
    decreases s.len(),
{
    if s.len() > 0 {
        lemma_limbs_val_zeros(s.drop_last());
    }
}

/// Numbers with the same limbs up to `n` have the same low `n` limbs value; two
/// sequences of limbs of equal length and equal value are equal.
pub proof fn lemma_limbs_val_injective(s: Seq<u32>, t: Seq<u32>)
    requires
        s.len() == t.len(),
        limbs_val(s) == limbs_val(t),
    ensures
        s == t,
    decreases s.len(),
{
    if s.len() > 0 {
        let n1 = (s.len() - 1) as nat;
        let w = rpow(n1);
        lemma_limbs_val_bound(s.drop_last());
        lemma_limbs_val_bound(t.drop_last());
        let a = limbs_val(s.drop_last());
        let b = limbs_val(t.drop_last());
        let x = s.last() as nat;
        let y = t.last() as nat;
        assert(x == y) by (nonlinear_arith)
            requires
                a + x * w == b + y * w,
                a < w,
                b < w,
        {
            if x < y {
                assert(x * w + w <= y * w);
            } else if x > y {
                assert(y * w + w <= x * w);
            }
        }
        lemma_limbs_val_injective(s.drop_last(), t.drop_last());
        assert(s =~= t.drop_last().push(t.last()));
        assert(t =~= t.drop_last().push(t.last()));
    }
}

/// `bpow(k)` is `256^k`, the weight of the `k`-th byte.
pub open spec fn bpow(k: nat) -> nat
    decreases k,
{
    if k == 0 {
        1
    } else {
        256 * bpow((k - 1) as nat)
    }
}

/// The little-endian value of a sequence of bytes.
pub open spec fn bytes_val(s: Seq<u8>) -> nat
    decreases s.len(),
{
    if s.len() == 0 {
        0
    } else {
        bytes_val(s.drop_last()) + (s.last() as nat) * bpow((s.len() - 1) as nat)
    }
}

/// The 32-bit word made of four little-endian bytes.
pub open spec fn word_of(b0: u8, b1: u8, b2: u8, b3: u8) -> nat {
    b0 as nat + (b1 as nat) * 256 + (b2 as nat) * 65536 + (b3 as nat) * 16777216
}

/// Limbs that hold, four by four, the bytes of `b`.
pub open spec fn limbs_match_bytes(l: Seq<u32>, b: Seq<u8>) -> bool {
    &&& b.len() == 4 * l.len()
    &&& forall|k: int|
        0 <= k < l.len() ==> #[trigger] l[k] as nat == word_of(
            b[4 * k],
            b[4 * k + 1],
            b[4 * k + 2],
            b[4 * k + 3],
        )
}

pub proof fn lemma_bpow_rpow(k: nat)
    ensures
        bpow(4 * k) == rpow(k),
    decreases k,
{
    if k > 0 {
        lemma_bpow_rpow((k - 1) as nat);
        let k1 = (k - 1) as nat;
        assert(4 * k == 4 * k1 + 4);
        reveal_with_fuel(bpow, 5);
        assert(bpow(4 * k1 + 4) == 256 * bpow(4 * k1 + 3));
        assert(bpow(4 * k1 + 3) == 256 * bpow(4 * k1 + 2));
        assert(bpow(4 * k1 + 2) == 256 * bpow(4 * k1 + 1));
        assert(bpow(4 * k1 + 1) == 256 * bpow(4 * k1));
    }
}

/// The value of the first `i + 1` bytes, from the value of the first `i`.
pub proof fn lemma_bytes_val_take_step(s: Seq<u8>, i: int)
    requires
        0 <= i < s.len(),
    ensures
        bytes_val(s.take(i + 1)) == bytes_val(s.take(i)) + (s[i] as nat) * bpow(i as nat),
{
    assert(s.take(i + 1).drop_last() =~= s.take(i));
}

/// Limbs that hold the bytes of `b` have the value of `b`.
pub proof fn lemma_limbs_bytes_val(l: Seq<u32>, b: Seq<u8>)
    requires
        limbs_match_bytes(l, b),
    ensures
        limbs_val(l) == bytes_val(b),
    decreases l.len(),
{
    if l.len() > 0 {
        let n = (l.len() - 1) as int;
        let lt = l.drop_last();
        let bt = b.take(4 * n);
        assert(limbs_match_bytes(lt, bt)) by {
            assert forall|k: int| 0 <= k < lt.len() implies #[trigger] lt[k] as nat == word_of(
                bt[4 * k],
                bt[4 * k + 1],
                bt[4 * k + 2],
                bt[4 * k + 3],
            ) by {
                assert(l[k] as nat == word_of(b[4 * k], b[4 * k + 1], b[4 * k + 2], b[4 * k + 3]));
            }
        }
        lemma_limbs_bytes_val(lt, bt);
        lemma_bytes_val_take_step(b, 4 * n);
        lemma_bytes_val_take_step(b, 4 * n + 1);
        lemma_bytes_val_take_step(b, 4 * n + 2);
        lemma_bytes_val_take_step(b, 4 * n + 3);
        assert(b.take(4 * n + 4) =~= b);
        lemma_bpow_rpow(n as nat);
        let r = bpow(4 * n as nat);
        reveal_with_fuel(bpow, 4);
        assert(bpow((4 * n + 1) as nat) == 256 * r);
        assert(bpow((4 * n + 2) as nat) == 65536 * r);
        assert(bpow((4 * n + 3) as nat) == 16777216 * r);
        assert(l[n] as nat == word_of(b[4 * n], b[4 * n + 1], b[4 * n + 2], b[4 * n + 3]));
        let b0 = b[4 * n] as nat;
        let b1 = b[4 * n + 1] as nat;
        let b2 = b[4 * n + 2] as nat;
        let b3 = b[4 * n + 3] as nat;
        assert((b0 + b1 * 256 + b2 * 65536 + b3 * 16777216) * r == b0 * r + b1 * (256 * r) + b2 * (
        65536 * r) + b3 * (16777216 * r)) by (nonlinear_arith);
    }
}

/// The top byte bounds the value from below.
pub proof fn lemma_bytes_val_top(s: Seq<u8>)
    requires
        s.len() > 0,
    ensures
        bytes_val(s) >= (s.last() as nat) * bpow((s.len() - 1) as nat),
        bytes_val(s.drop_last()) < bpow((s.len() - 1) as nat),
    decreases s.len(),
{
    lemma_bytes_val_bound(s.drop_last());
}

/// A number of `n` bytes is smaller than `bpow(n)`.
pub proof fn lemma_bytes_val_bound(s: Seq<u8>)
    ensures
        bytes_val(s) < bpow(s.len()),
    decreases s.len(),
{
    if s.len() > 0 {
        let n1 = (s.len() - 1) as nat;
        lemma_bytes_val_bound(s.drop_last());
        let v = bytes_val(s.drop_last());
        let l = s.last() as nat;
        let w = bpow(n1);
        assert(v + l * w < 256 * w) by (nonlinear_arith)
            requires
                v < w,
                l <= 255,
        ;
    }
}

/// Splitting a byte string at byte `i`.
pub proof fn lemma_bytes_val_split(s: Seq<u8>, i: int)
    requires
        0 <= i <= s.len(),
    ensures
        bytes_val(s) == bytes_val(s.take(i)) + bpow(i as nat) * bytes_val(s.skip(i)),
    decreases s.len(),
{
    if s.len() == i {
        assert(s.take(i) =~= s);
        assert(s.skip(i).len() == 0);
        assert(bytes_val(s.skip(i)) == 0);
        let a = bpow(i as nat);
        assert(a * 0 == 0) by (nonlinear_arith);
    } else {
        let d = s.drop_last();
        lemma_bytes_val_split(d, i);
        assert(d.take(i) =~= s.take(i));
        assert(s.skip(i).drop_last() =~= d.skip(i));
        assert(s.skip(i).last() == s.last());
        let hi = s.skip(i);
        lemma_bpow_add(i as nat, (hi.len() - 1) as nat);
        let a = bpow(i as nat);
        let b = bpow((hi.len() - 1) as nat);
        let x = bytes_val(d.skip(i));
        let l = s.last() as nat;
        assert(a * (x + l * b) == a * x + l * (a * b)) by (nonlinear_arith);
        assert(bytes_val(hi) == x + l * b);
        assert(bytes_val(s) == bytes_val(d) + l * bpow((s.len() - 1) as nat));
        assert(i + (hi.len() - 1) == s.len() - 1);
        assert(a * b == bpow((s.len() - 1) as nat));
    }
}

pub proof fn lemma_bpow_add(a: nat, b: nat)
    ensures
        bpow(a + b) == bpow(a) * bpow(b),
    decreases a,
{
    if a == 0 {
        assert(a + b == b);
        assert(bpow(a) == 1);
        assert(bpow(a) * bpow(b) == bpow(b));
    } else {
        let a1 = (a - 1) as nat;
        lemma_bpow_add(a1, b);
        assert((a + b - 1) as nat == a1 + b);
        let x = bpow(a1);
        let y = bpow(b);
        assert(256 * (x * y) == (256 * x) * y) by (nonlinear_arith);
        assert(bpow(a) == 256 * x);
    }
}

/// Byte strings of equal length and equal value are equal.
pub proof fn lemma_bytes_val_injective(s: Seq<u8>, t: Seq<u8>)
    requires
        s.len() == t.len(),
        bytes_val(s) == bytes_val(t),
    ensures
        s == t,
    decreases s.len(),
{
    if s.len() > 0 {
        let n1 = (s.len() - 1) as nat;
        let w = bpow(n1);
        lemma_bytes_val_bound(s.drop_last());
        lemma_bytes_val_bound(t.drop_last());
        let a = bytes_val(s.drop_last());
        let b = bytes_val(t.drop_last());
        let x = s.last() as nat;
        let y = t.last() as nat;
        assert(x == y) by (nonlinear_arith)
            requires
                a + x * w == b + y * w,
                a < w,
                b < w,
        {
            if x < y {
                assert(x * w + w <= y * w);
            } else if x > y {
                assert(y * w + w <= x * w);
            }
        }
        lemma_bytes_val_injective(s.drop_last(), t.drop_last());
        assert(s =~= t.drop_last().push(t.last()));
        assert(t =~= t.drop_last().push(t.last()));
    }
}

} // verus!
