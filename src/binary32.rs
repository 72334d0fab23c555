//! IEEE-754 binary32 bit patterns, and the wide fixed-point values that they
//! stand for.
use crate::float::{is_neg, mag_of, FromFloatError};
use crate::words::{
    lemma_bound, lemma_split, lemma_wbase_one, lemma_wbase_succ, lemma_zeros, nat_of, wbase, wrap,
};
use vstd::arithmetic::div_mod::{
    lemma_div_denominator, lemma_fundamental_div_mod, lemma_fundamental_div_mod_converse,
};
use vstd::arithmetic::power2::{lemma2_to64, lemma_pow2_adds, lemma_pow2_pos, lemma_pow2_unfold, pow2};
use vstd::bits::{lemma_u64_pow2_no_overflow, lemma_u64_shl_is_mul};
use vstd::prelude::*;

verus! {

/// The value, modulo the width, of the binary32 pattern `b` in `n` words.
pub open spec fn from_f32_value(b: u32, n: nat) -> nat {
    if f32_neg(b) {
        wrap(-from_f32_mag(b, n), n) as nat
    } else {
        from_f32_mag(b, n)
    }
}

/// The biased exponent field of the binary32 pattern `b`.
pub open spec fn f32_exp(b: u32) -> nat {
    (b as nat / 0x80_0000) % 0x100
}

/// The stored mantissa field of the binary32 pattern `b`.
pub open spec fn f32_mant(b: u32) -> nat {
    b as nat % 0x80_0000
}

/// Whether the sign bit of the binary32 pattern `b` is set.
pub open spec fn f32_neg(b: u32) -> bool {
    b >= 0x8000_0000
}

/// Binary32 pattern of `-2^31`, the most negative integer word.
pub const F32_MIN_INT: u32 = 0xcf00_0000;

/// The error that turning the binary32 pattern `b` into a wide number gives,
/// if any: NaN, or an infinity or a magnitude of `2^31` or more, which do not
/// fit the signed integer word; `-2^31` itself fits.
pub open spec fn from_f32_error(b: u32) -> Option<FromFloatError> {
    if f32_exp(b) == 0xff && f32_mant(b) != 0 {
        Some(FromFloatError::IsNan)
    } else if f32_exp(b) >= 158 && b != F32_MIN_INT {
        Some(FromFloatError::OutOfRange)
    } else {
        None
    }
}

/// The magnitude of the binary32 pattern `b` in `n`-word fixed point,
/// truncated below the last word; zero for zeros and subnormals.
pub open spec fn from_f32_mag(b: u32, n: nat) -> nat {
    let e = f32_exp(b);
    let m = 0x80_0000 + f32_mant(b);
    if e == 0 {
        0
    } else if e >= 150 {
        m * pow2((e - 150) as nat) * wbase((n - 1) as nat)
    } else {
        m * wbase((n - 1) as nat) / pow2((150 - e) as nat)
    }
}

/// The number of bits of `v` up to its highest set bit.
pub open spec fn bit_len(v: nat) -> nat
    decreases v,
{
    if v == 0 {
        0
    } else {
        1 + bit_len(v / 2)
    }
}

/// The binary32 pattern of the value of `s`, truncated toward zero to 24
/// significant bits; zero when that value is zero or below the smallest
/// normal binary32 magnitude.
pub open spec fn f32_bits_of(s: Seq<u32>) -> u32 {
    let a = mag_of(s);
    let p = (bit_len(a) - 1) as nat;
    let e = p + 127 - 32 * (s.len() - 1);
    if a == 0 || e <= 0 {
        0
    } else {
        let m = (a * 0x1_0000_0000) / pow2(p + 9);
        ((if is_neg(s) {
            0x8000_0000int
        } else {
            0int
        }) + e * 0x80_0000 + (m - 0x80_0000)) as u32
    }
}

/// A value between `2^p` and `2^(p + 1)` has `p + 1` bits.
pub proof fn lemma_bit_len(v: nat, p: nat)
    requires
        pow2(p) <= v < pow2(p + 1),
    ensures
        bit_len(v) == p + 1,
    decreases p,
{
    lemma_pow2_unfold(p + 1);
    if p == 0 {
        lemma2_to64();
        assert(v == 1);
        assert(bit_len(0) == 0);
    } else {
        lemma_pow2_unfold(p);
        lemma_bit_len(v / 2, (p - 1) as nat);
    }
}

/// The position of the highest set bit of `w`.
pub(crate) fn top_bit(w: u32) -> (b: u32)
    requires
        w >= 1,
    ensures
        b <= 31,
        pow2(b as nat) <= w < pow2(b as nat + 1),
{
    let mut b: u32 = 31;
    proof {
        lemma2_to64();
    }
    loop
        invariant
            b <= 31,
            w >= 1,
            w < pow2(b as nat + 1),
        decreases b,
    {
        proof {
            lemma_u64_pow2_no_overflow(b as nat);
            lemma_u64_shl_is_mul(1, b as u64);
        }
        if (w as u64) >= (1u64 << (b as u64)) {
            return b;
        }
        proof {
            if b == 0 {
                lemma2_to64();
            }
        }
        b -= 1;
    }
}

/// A magnitude whose top nonzero word is `top`, with highest bit `b` there,
/// lies between `2^(32 * top + b)` and `2^(32 * top + b + 1)`.
pub(crate) proof fn lemma_top_word_bounds(s: Seq<u32>, top: nat, b: nat)
    requires
        top < s.len(),
        forall|k: int| top < k < s.len() ==> s[k] == 0,
        pow2(b) <= s[top as int] < pow2(b + 1),
    ensures
        pow2(32 * top + b) <= nat_of(s) < pow2(32 * top + b + 1),
{
    let first = s[top as int];
    lemma_split(s, top);
    let hi = s.skip(top as int);
    let z = (s.len() - top - 1) as nat;
    assert(hi.drop_first() =~= Seq::new(z, |i: int| 0u32));
    lemma_zeros(z);
    assert(nat_of(hi) == first);
    lemma_bound(s.take(top as int));
    let (lo, w) = (nat_of(s.take(top as int)), wbase(top));
    lemma_pow2_adds(32 * top, b);
    lemma_pow2_adds(32 * top, b + 1);
    assert(w * pow2(b) <= lo + w * first < w * pow2(b + 1)) by (nonlinear_arith)
        requires
            pow2(b) <= first < pow2(b + 1),
            lo < w,
    ;
}

/// Scaled by `2^32` and divided by the weight of word `top`, a value keeps
/// word `top` and the word below it.
pub(crate) proof fn lemma_top_two_words(s: Seq<u32>, top: nat)
    requires
        top < s.len(),
        forall|k: int| top < k < s.len() ==> s[k] == 0,
    ensures
        (nat_of(s) * 0x1_0000_0000) / wbase(top) == s[top as int] * 0x1_0000_0000 + (if top > 0 {
            s[top - 1] as nat
        } else {
            0nat
        }),
{
    let first = s[top as int];
    let a = nat_of(s);
    lemma_split(s, top);
    let z = (s.len() - top - 1) as nat;
    assert(s.skip(top as int).drop_first() =~= Seq::new(z, |i: int| 0u32));
    lemma_zeros(z);
    lemma_wbase_succ(top);
    lemma_wbase_one();
    assert(nat_of(s.skip(top as int)) == first);
    let w = wbase(top);
    if top == 0 {
        assert(s.take(0) =~= Seq::<u32>::empty());
        assert(nat_of(s.take(0)) == 0);
        assert(nat_of(s) == nat_of(s.take(0)) + wbase(0) * nat_of(s.skip(0)));
        assert(wbase(0) * first == first) by (nonlinear_arith)
            requires
                wbase(0) == 1,
        ;
        assert(a == first);
        assert((a * 0x1_0000_0000) / 1 == a * 0x1_0000_0000);
    } else {
        let second = s[top - 1];
        let below = (top - 1) as nat;
        lemma_split(s, below);
        let h2 = s.skip(below as int);
        assert(h2.drop_first() =~= s.skip(top as int));
        lemma_bound(s.take(below as int));
        lemma_wbase_succ(below);
        let (lo, wl) = (nat_of(s.take(below as int)), wbase(below));
        let hi = first * 0x1_0000_0000 + second;
        assert(a * 0x1_0000_0000 == hi * w + lo * 0x1_0000_0000) by (nonlinear_arith)
            requires
                a == lo + wl * (second + 0x1_0000_0000 * first),
                hi == first * 0x1_0000_0000 + second,
                w == 0x1_0000_0000 * wl,
        ;
        assert(lo * 0x1_0000_0000 < w) by (nonlinear_arith)
            requires
                lo < wl,
                w == 0x1_0000_0000 * wl,
        ;
        lemma_fundamental_div_mod_converse(
            (a * 0x1_0000_0000) as int,
            w as int,
            hi as int,
            (lo * 0x1_0000_0000) as int,
        );
    }
}

/// The 24 bits from the highest set bit down, read off the top two words.
pub(crate) proof fn lemma_mantissa(a: nat, top: nat, b: nat, hi: nat)
    requires
        (a * 0x1_0000_0000) / wbase(top) == hi,
        pow2(b) * 0x1_0000_0000 <= hi < pow2(b + 1) * 0x1_0000_0000,
    ensures
        (a * 0x1_0000_0000) / pow2(32 * top + b + 9) == hi / pow2(b + 9),
        0x80_0000 <= hi / pow2(b + 9) < 0x100_0000,
{
    lemma_wbase_succ(top);
    lemma_pow2_pos(b + 9);
    lemma_pow2_adds(32 * top, b + 9);
    lemma_div_denominator((a * 0x1_0000_0000) as int, wbase(top) as int, pow2(b + 9) as int);
    lemma_pow2_adds(b, 9);
    lemma_pow2_adds(b + 1, 9);
    lemma_pow2_adds(b, 32);
    lemma_pow2_adds(b + 1, 32);
    lemma_pow2_adds(b + 9, 23);
    lemma_pow2_adds(b + 9, 24);
    lemma2_to64();
    let d = pow2(b + 9);
    assert(pow2(b) * 0x1_0000_0000 == 0x80_0000 * d);
    assert(pow2(b + 1) * 0x1_0000_0000 == 0x100_0000 * d);
    lemma_div_bounds(hi, d, 0x80_0000, 0x100_0000);
}

/// `lo * d <= x < hi * d` puts `x / d` between `lo` and `hi`.
pub(crate) proof fn lemma_div_bounds(x: nat, d: nat, lo: nat, hi: nat)
    requires
        d > 0,
        lo * d <= x < hi * d,
    ensures
        lo <= x / d < hi,
{
    lemma_fundamental_div_mod(x as int, d as int);
    let (q, r) = (x / d, x % d);
    assert(lo <= q < hi) by (nonlinear_arith)
        requires
            x == d * q + r,
            0 <= r < d,
            lo * d <= x < hi * d,
            d > 0,
    ;
}

} // verus!
