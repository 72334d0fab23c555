//! Laws that the arithmetic of wide numbers obeys, stated over the models
//! that its operations' contracts use.
use crate::binary32::{
    bit_len, f32_bits_of, f32_exp, f32_mant, f32_neg, from_f32_mag, from_f32_value, lemma_bit_len,
    F32_MIN_INT,
};
use crate::float::{
    frac_is_zero, i32_words, is_neg, mag_of, mul_spec, partial_sum, resized, WideFloat,
};
use crate::words::{
    digit, lemma_bound, lemma_digit, lemma_push, lemma_unique, lemma_wbase_one, lemma_wbase_succ,
    lemma_zeros, nat_of, wbase, wrap,
};
use vstd::arithmetic::div_mod::{
    lemma_add_mod_noop, lemma_fundamental_div_mod, lemma_fundamental_div_mod_converse,
    lemma_small_mod,
};
use vstd::arithmetic::power2::{lemma2_to64, lemma_pow2_adds, lemma_pow2_pos, pow2};
use vstd::prelude::*;

verus! {

/// A number plus its negation is zero, in every word, for every width; the
/// most negative value included.
pub proof fn lemma_add_neg_is_zero(x: Seq<u32>, r: Seq<u32>)
    requires
        x.len() >= 1,
        r.len() == x.len(),
        nat_of(r) == wrap(nat_of(x) as int + wrap(-nat_of(x), x.len()), x.len()),
    ensures
        nat_of(r) == 0,
        r == Seq::new(x.len(), |i: int| 0u32),
{
    let m = wbase(x.len()) as int;
    let v = nat_of(x) as int;
    lemma_wbase_succ(x.len());
    lemma_bound(x);
    lemma_small_mod(v as nat, m as nat);
    lemma_add_mod_noop(v, -v, m);
    assert(0int % m == 0);
    lemma_zeros(x.len());
    lemma_unique(r, Seq::new(x.len(), |i: int| 0u32));
}

/// Negating twice gives the number back, the most negative value included.
pub proof fn lemma_neg_neg(x: Seq<u32>)
    requires
        x.len() >= 1,
    ensures
        wrap(-wrap(-nat_of(x), x.len()), x.len()) == nat_of(x),
{
    let m = wbase(x.len()) as int;
    let v = nat_of(x) as int;
    lemma_wbase_succ(x.len());
    lemma_bound(x);
    if v == 0 {
        assert(0int % m == 0);
    } else {
        lemma_fundamental_div_mod_converse(-v, m, -1, m - v);
        lemma_fundamental_div_mod_converse(-(m - v), m, -1, v);
    }
}

/// Addition modulo the width is commutative.
pub proof fn lemma_add_commutative(a: Seq<u32>, b: Seq<u32>)
    requires
        a.len() == b.len(),
    ensures
        wrap(nat_of(a) as int + nat_of(b), a.len()) == wrap(nat_of(b) as int + nat_of(a), a.len()),
{
}

/// Addition modulo the width is associative.
pub proof fn lemma_add_associative(a: Seq<u32>, b: Seq<u32>, c: Seq<u32>)
    requires
        a.len() == b.len(),
        b.len() == c.len(),
    ensures
        wrap(wrap(nat_of(a) as int + nat_of(b), a.len()) + nat_of(c), a.len()) == wrap(
            nat_of(a) + wrap(nat_of(b) as int + nat_of(c), a.len()),
            a.len(),
        ),
{
    let m = wbase(a.len()) as int;
    let (x, y, z) = (nat_of(a) as int, nat_of(b) as int, nat_of(c) as int);
    lemma_wbase_succ(a.len());
    lemma_bound(a);
    lemma_bound(c);
    lemma_small_mod(x as nat, m as nat);
    lemma_small_mod(z as nat, m as nat);
    lemma_add_mod_noop(x + y, z, m);
    lemma_add_mod_noop(x, y + z, m);
    assert(x + y + z == x + (y + z));
}

/// A number equals its own integer word exactly when it is an integer.
pub proof fn lemma_eq_floor_iff_int(x: WideFloat)
    ensures
        <WideFloat as vstd::std_specs::cmp::PartialEqSpec<i32>>::eq_spec(&x, &(x@.last() as i32)) <==> frac_is_zero(x@),
{
}

/// Growing by `k` words and shrinking back restores the words, as does
/// shrinking and growing back when the removed words are zero.
pub proof fn lemma_resize_round_trip(s: Seq<u32>, k: int)
    requires
        -k <= s.len(),
        k < 0 ==> forall|i: int| 0 <= i < -k ==> s[i] == 0,
    ensures
        resized(resized(s, k), -k) == s,
{
    if k >= 0 {
        assert(resized(resized(s, k), -k) =~= s);
    } else {
        assert(resized(resized(s, k), -k) =~= s);
    }
}

/// The words of a nonnegative integer hold it above a zero fraction.
proof fn lemma_i32_words_nonneg(k: i32, n: nat)
    requires
        n >= 1,
        k >= 0,
    ensures
        nat_of(i32_words(k, n)) == k * wbase((n - 1) as nat),
        !is_neg(i32_words(k, n)),
{
    let s = i32_words(k, n);
    let lo = s.drop_last();
    assert(lo =~= Seq::new((n - 1) as nat, |i: int| 0u32));
    lemma_zeros((n - 1) as nat);
    assert(lo.push(s.last()) =~= s);
    lemma_push(lo, s.last());
    assert((k as u32) as int == k);
}

/// With every word below `n - 1` zero, the first `k < n` partial products
/// add up to zero.
proof fn lemma_partial_sum_zero(a: Seq<u32>, r: nat, n: nat, k: nat)
    requires
        a.len() == n,
        k < n,
        forall|i: int| 0 <= i < n - 1 ==> a[i] == 0,
    ensures
        partial_sum(nat_of(a), r, n, k) == 0,
    decreases k,
{
    if k > 0 {
        lemma_partial_sum_zero(a, r, n, (k - 1) as nat);
        lemma_digit(a, (k - 1) as nat);
        lemma_wbase_succ((n - k) as nat);
        assert((0 * r) / wbase((n - k) as nat) == 0);
    }
}

/// The product of the integers two and three is the integer six, in every
/// width.
pub proof fn lemma_small_int_product(n: nat)
    requires
        n >= 1,
    ensures
        forall|r: Seq<u32>|
            r.len() == n && #[trigger] nat_of(r) == mul_spec(i32_words(2, n), i32_words(3, n))
                ==> frac_is_zero(r) && r.last() as i32 == 6,
{
    let (a, b, c) = (i32_words(2, n), i32_words(3, n), i32_words(6, n));
    lemma_i32_words_nonneg(2, n);
    lemma_i32_words_nonneg(3, n);
    lemma_i32_words_nonneg(6, n);
    let w = wbase((n - 1) as nat);
    lemma_wbase_succ((n - 1) as nat);
    lemma_wbase_one();
    assert(n - 1 + 1 == n);
    lemma_partial_sum_zero(a, 3 * w, n, (n - 1) as nat);
    lemma_digit(a, (n - 1) as nat);
    assert(digit(2 * w, (n - 1) as nat) == 2);
    assert(partial_sum(2 * w, 3 * w, n, n) == (2 * (3 * w)) / wbase(0));
    assert((2 * (3 * w)) / 1 == 6 * w);
    lemma_small_mod(6 * w, wbase(n));
    assert(mul_spec(a, b) == nat_of(c));
    assert forall|r: Seq<u32>|
        r.len() == n && #[trigger] nat_of(r) == mul_spec(a, b) implies frac_is_zero(r) && r.last()
        as i32 == 6 by {
        lemma_unique(r, c);
        assert((6i32 as u32) as i32 == 6);
    }
}

/// The sign bit is set exactly when the value is at least half the range.
proof fn lemma_is_neg_iff(s: Seq<u32>)
    requires
        s.len() >= 1,
    ensures
        is_neg(s) <==> nat_of(s) >= 0x8000_0000 * wbase((s.len() - 1) as nat),
{
    let lo = s.drop_last();
    assert(lo.push(s.last()) =~= s);
    lemma_push(lo, s.last());
    lemma_bound(lo);
    let (w, t, v) = (wbase(lo.len()), s.last() as nat, nat_of(lo));
    if t >= 0x8000_0000 {
        assert(v + t * w >= 0x8000_0000 * w) by (nonlinear_arith)
            requires
                t >= 0x8000_0000,
        ;
    } else {
        assert(v + t * w < 0x8000_0000 * w) by (nonlinear_arith)
            requires
                t < 0x8000_0000,
                v < w,
        ;
    }
}

/// How many low bits of the mantissa of `b` fall below the last of `n`
/// words (zero or less when none do).
pub open spec fn f32_bits_dropped(b: u32, n: nat) -> int {
    150 - f32_exp(b) - 32 * (n - 1)
}

/// `-2^31`, the most negative value, converts back to its bit pattern.
proof fn lemma_min_int_round_trip(n: nat)
    requires
        n >= 1,
    ensures
        forall|s: Seq<u32>|
            s.len() == n && #[trigger] nat_of(s) == from_f32_value(F32_MIN_INT, n) ==> f32_bits_of(
                s,
            ) == F32_MIN_INT,
{
    let b = F32_MIN_INT;
    let w = wbase((n - 1) as nat);
    let mm = wbase(n) as int;
    lemma_wbase_succ((n - 1) as nat);
    lemma2_to64();
    assert(f32_exp(b) == 158 && f32_mant(b) == 0 && f32_neg(b));
    lemma_pow2_adds(8, (32 * (n - 1)) as nat);
    let h = 0x8000_0000 * w;
    assert(0x80_0000 * pow2(8) * w == h) by (nonlinear_arith)
        requires
            pow2(8) == 0x100,
            h == 0x8000_0000 * w,
    ;
    assert(from_f32_mag(b, n) == h);
    assert(h + h == mm);
    lemma_fundamental_div_mod_converse(-(h as int), mm, -1, h as int);
    let p = (32 * (n - 1) + 31) as nat;
    lemma_pow2_adds(31, (32 * (n - 1)) as nat);
    lemma_pow2_adds(p, 1);
    lemma_bit_len(h, p);
    lemma_pow2_adds(p, 9);
    assert(h * 0x1_0000_0000 == 0x80_0000 * pow2(p + 9)) by (nonlinear_arith)
        requires
            pow2(p + 9) == h * 0x200,
    ;
    lemma_pow2_pos(p + 9);
    lemma_fundamental_div_mod_converse(
        (h * 0x1_0000_0000) as int,
        pow2(p + 9) as int,
        0x80_0000,
        0,
    );
    assert forall|s: Seq<u32>|
        s.len() == n && #[trigger] nat_of(s) == from_f32_value(b, n) implies f32_bits_of(s)
        == b by {
        lemma_is_neg_iff(s);
        assert(is_neg(s));
        lemma_fundamental_div_mod_converse(-(h as int), mm, -1, h as int);
        assert(mag_of(s) == h);
    }
}

/// A normal binary32 value that `n` words hold exactly, no mantissa bit
/// falling below the last word, converts back to the same bit pattern;
/// `-2^31` included.
pub proof fn lemma_f32_round_trip(b: u32, n: nat)
    requires
        n >= 1,
        1 <= f32_exp(b) <= 157 || b == F32_MIN_INT,
        f32_bits_dropped(b, n) > 0 ==> (0x80_0000 + f32_mant(b)) % pow2(
            f32_bits_dropped(b, n) as nat,
        ) == 0,
    ensures
        forall|s: Seq<u32>|
            s.len() == n && #[trigger] nat_of(s) == from_f32_value(b, n) ==> f32_bits_of(s) == b,
{
    if b == F32_MIN_INT {
        lemma_min_int_round_trip(n);
        return;
    }
    let e = f32_exp(b);
    let m24 = 0x80_0000 + f32_mant(b);
    let big_m = from_f32_mag(b, n);
    let w = wbase((n - 1) as nat);
    lemma_wbase_succ((n - 1) as nat);
    lemma2_to64();
    let p = lemma_exact_magnitude(b, n);
    lemma_bit_len(big_m, p);
    // the fields of `b`
    lemma_fundamental_div_mod(b as int, 0x80_0000);
    lemma_fundamental_div_mod((b as int) / 0x80_0000, 0x100);
    let q = (b as int) / 0x80_0000;
    assert(q < 0x200);
    assert(f32_neg(b) <==> q >= 0x100);
    assert(b == (if f32_neg(b) { 0x8000_0000int } else { 0int }) + e * 0x80_0000 + f32_mant(b));
    assert(0x8000_0000 * w + 0x8000_0000 * w == wbase(n));
    assert forall|s: Seq<u32>|
        s.len() == n && #[trigger] nat_of(s) == from_f32_value(b, n) implies f32_bits_of(s)
        == b by {
        lemma_is_neg_iff(s);
        let mm = wbase(n) as int;
        if f32_neg(b) {
            lemma_fundamental_div_mod_converse(-big_m, mm, -1, mm - big_m);
            lemma_fundamental_div_mod_converse(-(mm - big_m), mm, -1, big_m as int);
            assert(is_neg(s));
        } else {
            assert(!is_neg(s));
        }
        assert(mag_of(s) == big_m);
        assert(bit_len(mag_of(s)) - 1 == p);
    }
}

/// The magnitude that an exact conversion gives: its highest set bit `p`
/// sits where the exponent of `b` puts it, its 24 bits from there down are
/// the mantissa, and it fits below the sign bit.
proof fn lemma_exact_magnitude(b: u32, n: nat) -> (p: nat)
    requires
        n >= 1,
        1 <= f32_exp(b) <= 157,
        f32_bits_dropped(b, n) > 0 ==> (0x80_0000 + f32_mant(b)) % pow2(
            f32_bits_dropped(b, n) as nat,
        ) == 0,
    ensures
        pow2(p) <= from_f32_mag(b, n) < pow2(p + 1),
        p + 127 - 32 * (n - 1) == f32_exp(b),
        (from_f32_mag(b, n) * 0x1_0000_0000) / pow2(p + 9) == 0x80_0000 + f32_mant(b),
        0 < from_f32_mag(b, n) < 0x8000_0000 * wbase((n - 1) as nat),
{
    let e = f32_exp(b);
    let m24 = 0x80_0000 + f32_mant(b);
    let big_m = from_f32_mag(b, n);
    let w = wbase((n - 1) as nat);
    lemma_wbase_succ((n - 1) as nat);
    lemma2_to64();
    if f32_bits_dropped(b, n) <= 0 {
        let k = (32 * (n - 1) + e - 150) as nat;
        if e >= 150 {
            lemma_pow2_adds((e - 150) as nat, 32 * (n - 1) as nat);
            assert(big_m == m24 * pow2(k)) by (nonlinear_arith)
                requires
                    big_m == m24 * pow2((e - 150) as nat) * w,
                    pow2(k) == pow2((e - 150) as nat) * w,
            ;
        } else {
            lemma_pow2_adds(k, (150 - e) as nat);
            lemma_pow2_pos((150 - e) as nat);
            let d = pow2((150 - e) as nat);
            assert(m24 * w == (m24 * pow2(k)) * d) by (nonlinear_arith)
                requires
                    w == pow2(k) * d,
            ;
            lemma_fundamental_div_mod_converse(
                (m24 * w) as int,
                d as int,
                (m24 * pow2(k)) as int,
                0,
            );
        }
        lemma_pow2_adds(k, 23);
        lemma_pow2_adds(k, 24);
        lemma_pow2_pos(k);
        assert(pow2(k + 23) <= big_m < pow2(k + 24)) by (nonlinear_arith)
            requires
                big_m == m24 * pow2(k),
                0x80_0000 <= m24 < 0x100_0000,
                pow2(k + 23) == pow2(k) * 0x80_0000,
                pow2(k + 24) == pow2(k) * 0x100_0000,
                pow2(k) > 0,
        ;
        lemma_pow2_adds(k + 24, (31 - (e - 126)) as nat);
        lemma_pow2_pos((31 - (e - 126)) as nat);
        lemma_pow2_adds(31, 32 * (n - 1) as nat);
        assert(k + 24 + (31 - (e - 126)) == 31 + 32 * (n - 1));
        assert(big_m < 0x8000_0000 * w) by (nonlinear_arith)
            requires
                big_m < pow2(k + 24),
                pow2(k + 24) * pow2((31 - (e - 126)) as nat) == 0x8000_0000 * w,
                pow2((31 - (e - 126)) as nat) >= 1,
        ;
        lemma_pow2_adds(k, 32);
        assert(big_m * 0x1_0000_0000 == m24 * pow2(k + 32)) by (nonlinear_arith)
            requires
                big_m == m24 * pow2(k),
                pow2(k + 32) == pow2(k) * 0x1_0000_0000,
        ;
        lemma_pow2_pos(k + 32);
        lemma_fundamental_div_mod_converse(
            (big_m * 0x1_0000_0000) as int,
            pow2(k + 32) as int,
            m24 as int,
            0,
        );
        assert(k + 23 + 9 == k + 32);
        k + 23
    } else {
        let j = f32_bits_dropped(b, n) as nat;
        lemma_pow2_pos(j);
        if j >= 24 {
            if j > 24 {
                vstd::arithmetic::power2::lemma_pow2_strictly_increases(24, j);
            }
            lemma_small_mod(m24, pow2(j));
        }
        assert(j <= 23);
        let mp = m24 / pow2(j);
        lemma_fundamental_div_mod(m24 as int, pow2(j) as int);
        assert(m24 == mp * pow2(j));
        // the magnitude is the mantissa without its `j` zero low bits
        lemma_pow2_adds(32 * (n - 1) as nat, j);
        let d = pow2((150 - e) as nat);
        assert(m24 * w == mp * d) by (nonlinear_arith)
            requires
                m24 == mp * pow2(j),
                d == w * pow2(j),
        ;
        lemma_pow2_pos((150 - e) as nat);
        lemma_fundamental_div_mod_converse((m24 * w) as int, d as int, mp as int, 0);
        assert(big_m == mp);
        let p = (23 - j) as nat;
        lemma_pow2_adds(p, j);
        lemma_pow2_adds(p + 1, j);
        assert(pow2(p) <= mp < pow2(p + 1)) by (nonlinear_arith)
            requires
                m24 == mp * pow2(j),
                0x80_0000 <= m24 < 0x100_0000,
                pow2(p) * pow2(j) == 0x80_0000,
                pow2(p + 1) * pow2(j) == 0x100_0000,
                pow2(j) > 0,
        ;
        assert(mp < 0x8000_0000 * w) by (nonlinear_arith)
            requires
                mp <= m24,
                m24 < 0x100_0000,
                w >= 1,
        ;
        lemma_pow2_adds(p + 9, j);
        assert(p + 9 + j == 32);
        assert(mp * 0x1_0000_0000 == m24 * pow2(p + 9)) by (nonlinear_arith)
            requires
                m24 == mp * pow2(j),
                0x1_0000_0000 == pow2(p + 9) * pow2(j),
        ;
        lemma_pow2_pos(p + 9);
        lemma_fundamental_div_mod_converse(
            (mp * 0x1_0000_0000) as int,
            pow2(p + 9) as int,
            m24 as int,
            0,
        );
        p
    }
}

} // verus!
