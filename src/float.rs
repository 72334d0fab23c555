//! Wide two's-complement fixed-point numbers.
//!
//! A number of `n` words is the `32 * n`-bit two's-complement integer whose
//! words are stored least significant first, divided by `2^(32 * (n - 1))`:
//! the last word is the signed integer part, the others are the fraction.
use crate::binary32::{
    f32_bits_of, from_f32_error, from_f32_mag, F32_MIN_INT, from_f32_value, lemma_bit_len, lemma_mantissa, lemma_top_two_words,
    lemma_top_word_bounds, top_bit,
};
use crate::gpu::{be_bytes, le_bytes, words_as_bytes};
use crate::words::{
    add_words, digit, div_pow2_words, lemma_bound, lemma_carry_out, lemma_digit, lemma_push,
    lemma_set_zero_word, lemma_split, lemma_wbase_adds, lemma_wbase_one, lemma_wbase_succ,
    lemma_zeros, mul_word, nat_of, neg_words, shift_words_down, shift_words_up, sub_words, wbase,
    wrap,
};
use std::cmp::Ordering;
use vstd::arithmetic::div_mod::{
    lemma_add_mod_noop, lemma_div_denominator, lemma_fundamental_div_mod_converse, lemma_mod_twice,
    lemma_mul_mod_noop_left, lemma_small_mod,
};
use vstd::arithmetic::power2::{
    lemma2_to64, lemma_pow2_adds, lemma_pow2_pos, lemma_pow2_strictly_increases, pow2,
};
use vstd::bits::{
    lemma_u32_pow2_no_overflow, lemma_u32_shl_is_mul, lemma_u64_pow2_no_overflow,
    lemma_u64_shl_is_mul,
};
use vstd::prelude::*;

verus! {

/// Number of bits in a word.
pub const WORD_WIDTH: usize = 32;

/// Whether the sign bit of `s` (the top bit of its last word) is set.
pub open spec fn is_neg(s: Seq<u32>) -> bool {
    s.last() >= 0x8000_0000
}

/// The signed integer that the words of `s` hold in two's complement.
pub open spec fn int_of(s: Seq<u32>) -> int {
    if is_neg(s) {
        nat_of(s) - wbase(s.len())
    } else {
        nat_of(s) as int
    }
}

/// Whether every fractional word of `s` is zero.
pub open spec fn frac_is_zero(s: Seq<u32>) -> bool {
    forall|i: int| 0 <= i < s.len() - 1 ==> s[i] == 0
}

/// The magnitude of the two's-complement integer that `s` holds, as `|s|`
/// words hold it (the most negative value is its own magnitude).
pub open spec fn mag_of(s: Seq<u32>) -> nat {
    if is_neg(s) {
        wrap(-nat_of(s), s.len()) as nat
    } else {
        nat_of(s)
    }
}

/// The sum, over the first `k` words `l_i` of the magnitude `l`, of the
/// partial product `l_i * r` aligned to the radix point of `n`-word numbers
/// and truncated there: `l_i * r / 2^(32 * (n - 1 - i))`.
pub open spec fn partial_sum(l: nat, r: nat, n: nat, k: nat) -> nat
    decreases k,
{
    if k == 0 {
        0
    } else {
        partial_sum(l, r, n, (k - 1) as nat) + (digit(l, (k - 1) as nat) * r) / wbase(
            (n - k) as nat,
        )
    }
}

/// The value of the truncating fixed-point product of `a` and `b`: the
/// product of the magnitudes, modulo the width, negated when exactly one
/// operand is negative.
pub open spec fn mul_spec(a: Seq<u32>, b: Seq<u32>) -> nat {
    let n = a.len();
    let m = wrap(partial_sum(mag_of(a), mag_of(b), n, n) as int, n);
    if is_neg(a) != is_neg(b) {
        wrap(-m, n) as nat
    } else {
        m as nat
    }
}

/// The total order of fixed-point values: that of the signed integers
/// their words hold.
pub open spec fn cmp_spec(a: Seq<u32>, b: Seq<u32>) -> Ordering {
    if int_of(a) < int_of(b) {
        Ordering::Less
    } else if int_of(a) == int_of(b) {
        Ordering::Equal
    } else {
        Ordering::Greater
    }
}

/// Comparison with the integer `k`: the integer words first, then a nonzero
/// fraction counts as greater.
pub open spec fn cmp_i32_spec(s: Seq<u32>, k: i32) -> Ordering {
    let f = s.last() as i32;
    if f < k {
        Ordering::Less
    } else if f > k {
        Ordering::Greater
    } else if frac_is_zero(s) {
        Ordering::Equal
    } else {
        Ordering::Greater
    }
}

/// The number of words left once the zero words at the most significant end
/// are skipped.
pub open spec fn top_len(s: Seq<u32>) -> nat
    decreases s.len(),
{
    if s.len() == 0 {
        0
    } else if s.last() != 0 {
        s.len()
    } else {
        top_len(s.drop_last())
    }
}

/// Skipping zero words leaves no more words than there were.
pub proof fn lemma_top_len_bound(s: Seq<u32>)
    ensures
        top_len(s) <= s.len(),
    decreases s.len(),
{
    if s.len() > 0 && s.last() == 0 {
        lemma_top_len_bound(s.drop_last());
    }
}

/// The most significant nonzero word, or zero when there is none.
pub open spec fn top_word(s: Seq<u32>) -> u32
    decreases s.len(),
{
    if s.len() == 0 {
        0
    } else if s.last() != 0 {
        s.last()
    } else {
        top_word(s.drop_last())
    }
}

/// How many words must be added at the least significant end of `s` (or
/// removed, when negative) for `extra_bits` bits to follow its first set
/// bit: `extra_bits / 32 + 1` words below the top nonzero word, one more
/// when that word is at most `2^(extra_bits % 32 - 1)` (at most zero when
/// `extra_bits` is a multiple of 32).
pub open spec fn precision_diff_spec(s: Seq<u32>, extra_bits: nat) -> int {
    let threshold: nat = if extra_bits % 32 == 0 {
        0
    } else {
        pow2((extra_bits % 32 - 1) as nat)
    };
    (extra_bits / 32 + 1) - top_len(s) + (if top_word(s) <= threshold {
        1int
    } else {
        0int
    })
}

/// The integer word as a signed value, above the fraction words.
pub proof fn lemma_int_of_split(s: Seq<u32>)
    requires
        s.len() >= 1,
    ensures
        int_of(s) == (s.last() as i32) as int * wbase((s.len() - 1) as nat) + nat_of(
            s.drop_last(),
        ),
{
    let n = (s.len() - 1) as nat;
    assert(s.drop_last().push(s.last()) =~= s);
    lemma_push(s.drop_last(), s.last());
    lemma_wbase_succ(n);
    let t = s.last();
    let w = wbase(n);
    if t >= 0x8000_0000 {
        assert(((t as i32) as int) == t - 0x1_0000_0000) by (bit_vector)
            requires
                t >= 0x8000_0000,
        ;
        assert(t * w - 0x1_0000_0000 * w == (t - 0x1_0000_0000) * w) by (nonlinear_arith);
    } else {
        assert(((t as i32) as int) == t) by (bit_vector)
            requires
                t < 0x8000_0000,
        ;
    }
}

/// Of two word sequences that agree above word `j`, the one with the smaller
/// word `j` has the smaller value.
pub proof fn lemma_lex_lt(a: Seq<u32>, b: Seq<u32>, j: nat)
    requires
        a.len() == b.len(),
        j < a.len(),
        a[j as int] < b[j as int],
        forall|k: int| j < k < a.len() ==> a[k] == b[k],
    ensures
        nat_of(a) < nat_of(b),
{
    lemma_split(a, j);
    lemma_split(b, j);
    lemma_bound(a.take(j as int));
    lemma_wbase_succ(j);
    let (ha, hb) = (a.skip(j as int), b.skip(j as int));
    assert(ha.drop_first() =~= hb.drop_first());
    let h = nat_of(ha.drop_first());
    let w = wbase(j);
    let (x, y) = (a[j as int] as nat, b[j as int] as nat);
    assert(nat_of(a.take(j as int)) + w * (x + 0x1_0000_0000 * h) < w * (y + 0x1_0000_0000 * h))
        by (nonlinear_arith)
        requires
            nat_of(a.take(j as int)) < w,
            x < y,
    ;
}

/// `s` with `d` zero words inserted at its least significant end, or with
/// `-d` words removed from there when `d` is negative.
pub open spec fn resized(s: Seq<u32>, d: int) -> Seq<u32> {
    if d >= 0 {
        Seq::new(d as nat, |i: int| 0u32) + s
    } else {
        s.skip(-d)
    }
}

/// The words of the integer `k` in `n`-word fixed point.
pub open spec fn i32_words(k: i32, n: nat) -> Seq<u32> {
    Seq::new(n, |i: int| if i == n - 1 { k as u32 } else { 0u32 })
}

/// Wide fixed-point number, specialized for Mandelbrot calculations.
#[derive(Debug, Hash)]
pub struct WideFloat {
    words: Vec<u32>,
}

/// Why a float cannot be turned into a `WideFloat`.
#[derive(Clone, Copy, Debug, PartialEq, Eq, Structural)]
pub enum FromFloatError {
    IsNan,
    OutOfRange,
}

impl View for WideFloat {
    type V = Seq<u32>;

    closed spec fn view(&self) -> Seq<u32> {
        self.words@
    }
}

impl WideFloat {
    #[verifier::type_invariant]
    spec fn inv(self) -> bool {
        1 <= self.words@.len() <= isize::MAX
    }

    /// The number whose words, least significant first, are `words`.
    pub fn from_words(words: Vec<u32>) -> (r: Self)
        requires
            1 <= words@.len() <= isize::MAX,
        ensures
            r@ == words@,
    {
        WideFloat { words }
    }

    /// The words of this number, least significant first.
    pub fn words(&self) -> (r: &Vec<u32>)
        ensures
            r@ == self@,
    {
        &self.words
    }

    /// Zero, in `size` words.
    pub fn zero(size: usize) -> (r: Self)
        requires
            1 <= size <= isize::MAX,
        ensures
            r@ == Seq::new(size as nat, |i: int| 0u32),
            nat_of(r@) == 0,
    {
        proof {
            lemma_zeros(size as nat);
        }
        let words = vec![0u32; size];
        assert(words@ =~= Seq::new(size as nat, |i: int| 0u32));
        WideFloat { words }
    }

    /// The positive number `2^precision / 2^(32 * (size - 1))`: the single
    /// bit `precision` (counted from the least significant bit) set.
    pub fn min_positive(size: usize, precision: usize) -> (r: Self)
        requires
            size <= isize::MAX,
            precision / 32 < size,
        ensures
            r@.len() == size,
            nat_of(r@) == pow2(precision as nat),
    {
        let idx = precision / WORD_WIDTH;
        let bit = (precision % WORD_WIDTH) as u32;
        proof {
            lemma_u32_pow2_no_overflow(bit as nat);
            lemma_u32_shl_is_mul(1, bit);
        }
        let v: u32 = 1u32 << bit;
        let mut words = vec![0u32; size];
        words.set(idx, v);
        proof {
            let s = words@;
            lemma_split(s, idx as nat);
            lemma_split(s.skip(idx as int), 1);
            assert(s.take(idx as int) =~= Seq::new(idx as nat, |i: int| 0u32));
            lemma_zeros(idx as nat);
            let hi = s.skip(idx as int).skip(1);
            assert(hi =~= Seq::new(hi.len(), |i: int| 0u32));
            lemma_zeros(hi.len());
            let one = s.skip(idx as int).take(1);
            assert(one.drop_first() =~= Seq::<u32>::empty());
            assert(nat_of(one) == v);
            lemma_wbase_one();
            lemma_pow2_adds(32 * idx as nat, bit as nat);
        }
        WideFloat { words }
    }

    /// The integer `value`, in `size` words: `value` is the integer word and
    /// every fractional word is zero.
    pub fn from_i32(value: i32, size: usize) -> (r: Self)
        requires
            1 <= size <= isize::MAX,
        ensures
            r@ == i32_words(value, size as nat),
            int_of(r@) == value * wbase((size - 1) as nat),
    {
        let mut words = vec![0u32; size];
        words.set(size - 1, #[verifier::truncate] (value as u32));
        proof {
            let s = words@;
            assert(s =~= Seq::new(size as nat, |i: int| if i == size - 1 { value as u32 } else { 0u32 }));
            let lo = s.drop_last();
            assert(lo =~= Seq::new((size - 1) as nat, |i: int| 0u32));
            lemma_zeros((size - 1) as nat);
            assert(lo.push(value as u32) =~= s);
            lemma_push(lo, value as u32);
            lemma_wbase_succ((size - 1) as nat);
            let w = wbase((size - 1) as nat);
            if value < 0 {
                assert(((#[verifier::truncate] (value as u32)) as int) == value + 0x1_0000_0000)
                    by (bit_vector)
                    requires
                        value < 0,
                ;
                assert((value + 0x1_0000_0000) * w - 0x1_0000_0000 * w == value * w)
                    by (nonlinear_arith);
            }
        }
        WideFloat { words }
    }

    /// The binary32 value whose bit pattern is `bits`, in `size` words,
    /// truncated toward zero: bits below the last word are dropped, and
    /// subnormals become zero.
    pub fn from_f32(bits: u32, size: usize) -> (r: Result<Self, FromFloatError>)
        requires
            1 <= size <= isize::MAX,
        ensures
            from_f32_error(bits) is Some <==> r is Err,
            r matches Err(e) ==> from_f32_error(bits) == Some(e),
            r matches Ok(v) ==> v@.len() == size && nat_of(v@) == from_f32_value(bits, size as nat),
    {
        let e = (bits / 0x80_0000) % 0x100;
        let mant = bits % 0x80_0000;
        if e == 0xff && mant != 0 {
            return Err(FromFloatError::IsNan);
        }
        if bits == F32_MIN_INT {
            let v = Self::from_i32(i32::MIN, size);
            proof {
                let n = size as nat;
                let w = wbase((n - 1) as nat);
                lemma_wbase_succ((n - 1) as nat);
                lemma_int_of_split(v@);
                assert(v@.drop_last() =~= Seq::new((n - 1) as nat, |i: int| 0u32));
                lemma_zeros((n - 1) as nat);
                assert((#[verifier::truncate] (i32::MIN as u32)) == 0x8000_0000u32) by (bit_vector);
                assert(v@.last() == 0x8000_0000u32);
                lemma2_to64();
                lemma_pow2_adds(8, (32 * (n - 1)) as nat);
                assert(crate::binary32::f32_exp(bits) == 158);
                assert(crate::binary32::f32_mant(bits) == 0);
                assert(pow2(8) == 0x100);
                assert(0x80_0000 * pow2(8) * w == 0x8000_0000 * w) by (nonlinear_arith)
                    requires
                        pow2(8) == 0x100,
                ;
                assert(from_f32_mag(bits, n) == 0x8000_0000 * w);
                lemma_fundamental_div_mod_converse(
                    -(0x8000_0000 * w) as int,
                    wbase(n) as int,
                    -1,
                    (0x8000_0000 * w) as int,
                );
            }
            return Ok(v);
        }
        if e >= 158 {
            return Err(FromFloatError::OutOfRange);
        }
        if e == 0 {
            let z = Self::zero(size);
            proof {
                lemma_wbase_succ(size as nat);
                lemma_fundamental_div_mod_converse(0, wbase(size as nat) as int, 0, 0);
            }
            return Ok(z);
        }
        let m = mant + 0x80_0000;
        let ghost w = wbase((size - 1) as nat);
        proof {
            lemma_wbase_succ((size - 1) as nat);
        }
        let mut r = if e >= 150 {
            let k = e - 150;
            proof {
                lemma_u32_pow2_no_overflow(k as nat);
                lemma2_to64();
                if k < 7 {
                    lemma_pow2_strictly_increases(k as nat, 7);
                }
                assert(m * pow2(k as nat) < 0x8000_0000) by (nonlinear_arith)
                    requires
                        m < 0x100_0000,
                        pow2(k as nat) <= 0x80,
                ;
                lemma_u32_shl_is_mul(m, k);
            }
            let top = m << k;
            let v = Self::from_i32(top as i32, size);
            proof {
                lemma_int_of_split(v@);
                assert(v@.drop_last() =~= Seq::new((size - 1) as nat, |i: int| 0u32));
                lemma_zeros((size - 1) as nat);
            }
            v
        } else {
            let mut v = Self::from_i32(m as i32, size);
            proof {
                lemma_int_of_split(v@);
                assert(v@.drop_last() =~= Seq::new((size - 1) as nat, |i: int| 0u32));
                lemma_zeros((size - 1) as nat);
            }
            v.shr_assign((150 - e) as usize);
            v
        };
        if bits >= 0x8000_0000 {
            r = r.neg();
        }
        Ok(r)
    }

    /// The binary32 bit pattern of this number, truncated toward zero to 24
    /// significant bits. Zero, and magnitudes below the smallest normal
    /// binary32 value, give the pattern of `0.0`.
    pub fn as_f32_round(&self) -> (r: u32)
        ensures
            r == f32_bits_of(self@),
    {
        proof {
            use_type_invariant(self);
        }
        let n = self.words.len();
        let neg = self.words[n - 1] >= 0x8000_0000;
        let mut mw = self.words.clone();
        assert(mw@ =~= self@);
        if neg {
            neg_words(&mut mw);
        }
        let ghost a = mag_of(self@);
        let mut t: usize = n;
        while t > 0 && mw[t - 1] == 0
            invariant
                t <= n,
                mw@.len() == n,
                forall|k: int| t <= k < n ==> mw@[k] == 0,
            decreases t,
        {
            t -= 1;
        }
        if t == 0 {
            proof {
                assert(mw@ =~= Seq::new(n as nat, |i: int| 0u32));
                lemma_zeros(n as nat);
            }
            return 0;
        }
        let top = t - 1;
        let first = mw[top];
        let second: u32 = if top > 0 {
            mw[top - 1]
        } else {
            0
        };
        let b = top_bit(first);
        let ghost p: nat = 32 * top as nat + b as nat;
        proof {
            lemma_top_word_bounds(mw@, top as nat, b as nat);
            lemma_bit_len(a, p);
        }
        let zero_words = n - 1 - top;
        if zero_words > 4 {
            return 0;
        }
        let e: i64 = 127 + b as i64 - 32 * zero_words as i64;
        if e <= 0 {
            return 0;
        }
        let hi: u64 = first as u64 * 0x1_0000_0000 + second as u64;
        proof {
            lemma_u64_pow2_no_overflow(b as nat + 9);
            lemma_u64_shl_is_mul(1, (b + 9) as u64);
        }
        let d: u64 = 1u64 << ((b + 9) as u64);
        let m = hi / d;
        proof {
            lemma_top_two_words(mw@, top as nat);
            lemma_mantissa(a, top as nat, b as nat, hi as nat);
        }
        let sign: u32 = if neg {
            0x8000_0000
        } else {
            0
        };
        sign + (e as u32) * 0x80_0000 + (m as u32 - 0x80_0000)
    }

    /// The words as bytes, in the layout the compute kernel reads: least
    /// significant word first, each in the machine's byte order.
    pub fn as_bytes(&self) -> (r: &[u8])
        ensures
            r@ == le_bytes(self@) || r@ == be_bytes(self@),
    {
        words_as_bytes(self.words.as_slice())
    }

    /// The integer word, read as a signed integer.
    pub fn floor(&self) -> (r: i32)
        ensures
            r == self@.last() as i32,
    {
        proof {
            use_type_invariant(self);
        }
        self.words[self.words.len() - 1] as i32
    }

    /// Whether every fractional word is zero.
    pub fn is_int(&self) -> (r: bool)
        ensures
            r == frac_is_zero(self@),
    {
        proof {
            use_type_invariant(self);
        }
        let n = self.words.len() - 1;
        let mut i: usize = 0;
        while i < n
            invariant
                n == self@.len() - 1,
                i <= n,
                forall|j: int| 0 <= j < i ==> self@[j] == 0,
            decreases n - i,
        {
            if self.words[i] != 0 {
                return false;
            }
            i += 1;
        }
        true
    }

    /// The number of words.
    pub fn word_count(&self) -> (r: usize)
        ensures
            r == self@.len(),
            1 <= r <= isize::MAX,
    {
        proof {
            use_type_invariant(self);
        }
        self.words.len()
    }
    /// Adds `rhs` in place, wrapping around modulo `2^(32 * n)`.
    pub fn add_assign(&mut self, rhs: &Self)
        requires
            old(self)@.len() == rhs@.len(),
        ensures
            final(self)@.len() == old(self)@.len(),
            nat_of(final(self)@) == wrap(nat_of(old(self)@) as int + nat_of(rhs@), old(self)@.len()),
    {
        proof {
            use_type_invariant(&*self);
        }
        let mut words = self.words.clone();
        assert(words@ =~= self@);
        add_words(&mut words, &rhs.words);
        *self = WideFloat { words };
    }

    /// `self + rhs`, wrapping around modulo `2^(32 * n)`.
    pub fn add(self, rhs: &Self) -> (r: Self)
        requires
            self@.len() == rhs@.len(),
        ensures
            r@.len() == self@.len(),
            nat_of(r@) == wrap(nat_of(self@) as int + nat_of(rhs@), self@.len()),
    {
        proof {
            use_type_invariant(&self);
        }
        let WideFloat { mut words } = self;
        add_words(&mut words, &rhs.words);
        WideFloat { words }
    }

    /// Subtracts `rhs` in place, wrapping around modulo `2^(32 * n)`.
    pub fn sub_assign(&mut self, rhs: &Self)
        requires
            old(self)@.len() == rhs@.len(),
        ensures
            final(self)@.len() == old(self)@.len(),
            nat_of(final(self)@) == wrap(nat_of(old(self)@) - nat_of(rhs@), old(self)@.len()),
    {
        proof {
            use_type_invariant(&*self);
        }
        let mut words = self.words.clone();
        assert(words@ =~= self@);
        sub_words(&mut words, &rhs.words);
        *self = WideFloat { words };
    }

    /// `self - rhs`, wrapping around modulo `2^(32 * n)`.
    pub fn sub(self, rhs: &Self) -> (r: Self)
        requires
            self@.len() == rhs@.len(),
        ensures
            r@.len() == self@.len(),
            nat_of(r@) == wrap(nat_of(self@) - nat_of(rhs@), self@.len()),
    {
        proof {
            use_type_invariant(&self);
        }
        let WideFloat { mut words } = self;
        sub_words(&mut words, &rhs.words);
        WideFloat { words }
    }

    /// Two's-complement negation: `-self` modulo `2^(32 * n)`.
    pub fn neg(self) -> (r: Self)
        ensures
            r@.len() == self@.len(),
            nat_of(r@) == wrap(-nat_of(self@), self@.len()),
    {
        proof {
            use_type_invariant(&self);
        }
        let WideFloat { mut words } = self;
        neg_words(&mut words);
        WideFloat { words }
    }
    /// Logical shift right by `rhs` bits: whole words first, zeros filling the
    /// vacated top words, then the bits within words. The top word is
    /// zero-filled whatever the sign.
    pub fn shr_assign(&mut self, rhs: usize)
        ensures
            final(self)@.len() == old(self)@.len(),
            nat_of(final(self)@) == nat_of(old(self)@) / pow2(rhs as nat),
    {
        proof {
            use_type_invariant(&*self);
        }
        let rot = rhs / WORD_WIDTH;
        let bits = (rhs % WORD_WIDTH) as u32;
        let mut words = shift_words_down(&self.words, rot);
        div_pow2_words(&mut words, bits);
        proof {
            let x = nat_of(self@);
            lemma_wbase_succ(rot as nat);
            lemma_pow2_pos(bits as nat);
            lemma_div_denominator(x as int, wbase(rot as nat) as int, pow2(bits as nat) as int);
            lemma_pow2_adds(32 * rot as nat, bits as nat);
        }
        *self = WideFloat { words };
    }

    /// Logical shift left by `rhs` bits, bits shifted out of the top word
    /// being lost.
    pub fn shl_assign(&mut self, rhs: usize)
        ensures
            final(self)@.len() == old(self)@.len(),
            nat_of(final(self)@) == wrap(nat_of(old(self)@) as int * pow2(rhs as nat), old(self)@.len()),
    {
        proof {
            use_type_invariant(&*self);
        }
        let n = self.words.len();
        let rot = rhs / WORD_WIDTH;
        let bits = (rhs % WORD_WIDTH) as u32;
        proof {
            lemma_u32_pow2_no_overflow(bits as nat);
            lemma_u32_shl_is_mul(1, bits);
        }
        let mut words = shift_words_up(&self.words, rot);
        let ghost w1 = words@;
        let dropped = mul_word(&mut words, 1u32 << bits);
        proof {
            let x = nat_of(self@);
            let wn = wbase(n as nat);
            lemma_wbase_succ(n as nat);
            lemma_bound(words@);
            lemma_carry_out(
                nat_of(words@),
                dropped as nat,
                wn,
                nat_of(w1) as int * pow2(bits as nat),
            );
            lemma_mul_mod_noop_left(x as int * wbase(rot as nat), pow2(bits as nat) as int, wn as int);
            lemma_pow2_adds(32 * rot as nat, bits as nat);
            assert(x * wbase(rot as nat) * pow2(bits as nat) == x * pow2(rhs as nat))
                by (nonlinear_arith)
                requires
                    pow2(rhs as nat) == wbase(rot as nat) * pow2(bits as nat),
            ;
        }
        *self = WideFloat { words };
    }

    /// Truncating fixed-point product. The magnitudes are multiplied one
    /// word of `|self|` at a time against the whole of `|rhs|`; each partial
    /// product is aligned to the radix point and its bits below the last word
    /// dropped before it is added in; the sum wraps around modulo
    /// `2^(32 * n)`, and is negated when exactly one operand is negative.
    pub fn mul(&self, rhs: &Self) -> (r: Self)
        requires
            self@.len() == rhs@.len(),
        ensures
            r@.len() == self@.len(),
            nat_of(r@) == mul_spec(self@, rhs@),
    {
        proof {
            use_type_invariant(self);
        }
        let n = self.words.len();
        let lneg = self.words[n - 1] >= 0x8000_0000;
        let rneg = rhs.words[n - 1] >= 0x8000_0000;
        let mut l = self.words.clone();
        assert(l@ =~= self@);
        if lneg {
            neg_words(&mut l);
        }
        let mut r = rhs.words.clone();
        assert(r@ =~= rhs@);
        if rneg {
            neg_words(&mut r);
        }
        let ghost lm = mag_of(self@);
        let ghost rm = mag_of(rhs@);
        let ghost wn = wbase(n as nat);
        proof {
            lemma_wbase_succ(n as nat);
            lemma_zeros(n as nat);
            lemma_fundamental_div_mod_converse(0, wn as int, 0, 0);
        }
        let mut acc = vec![0u32; n];
        assert(acc@ =~= Seq::new(n as nat, |i: int| 0u32));
        let mut i: usize = 0;
        while i < n
            invariant
                n == self@.len(),
                n == rhs@.len(),
                l@.len() == n,
                r@.len() == n,
                acc@.len() == n,
                nat_of(l@) == lm,
                nat_of(r@) == rm,
                wn == wbase(n as nat),
                wn > 0,
                i <= n,
                nat_of(acc@) == wrap(partial_sum(lm, rm, n as nat, i as nat) as int, n as nat),
            decreases n - i,
        {
            let mut part = r.clone();
            assert(part@ =~= r@);
            let carry = mul_word(&mut part, l[i]);
            let s = n - 1 - i;
            let mut shifted = shift_words_down(&part, s);
            let ghost p = nat_of(part@);
            let ghost li: nat = l@[i as int] as nat;
            proof {
                lemma_digit(l@, i as nat);
                lemma_wbase_adds((i + 1) as nat, s as nat);
                lemma_wbase_succ(s as nat);
                lemma_wbase_succ((i + 1) as nat);
                lemma_bound(part@);
            }
            if s > 0 {
                proof {
                    lemma_set_zero_word(shifted@, (i + 1) as nat, carry);
                    let (ws, wi) = (wbase(s as nat), wbase((i + 1) as nat));
                    assert(li * rm == (p / ws + carry * wi) * ws + p % ws) by (nonlinear_arith)
                        requires
                            p + carry * wn == li * rm,
                            wn == wi * ws,
                            ws > 0,
                    ;
                    lemma_fundamental_div_mod_converse(
                        (li * rm) as int,
                        ws as int,
                        p / ws + carry * wi,
                        (p % ws) as int,
                    );
                }
                shifted.set(i + 1, carry);
            }
            let ghost term: nat = (li * rm) / wbase(s as nat);
            proof {
                lemma_bound(shifted@);
                if s == 0 {
                    lemma_carry_out(p, carry as nat, wn, (li * rm) as int);
                    lemma_wbase_one();
                    assert(p / 1 == p);
                    assert((li * rm) / 1 == li * rm);
                    assert(nat_of(shifted@) == (term as int) % (wn as int));
                } else {
                    lemma_small_mod(term as nat, wn);
                }
                lemma_add_mod_noop(
                    partial_sum(lm, rm, n as nat, i as nat) as int,
                    term as int,
                    wn as int,
                );
                lemma_mod_twice(partial_sum(lm, rm, n as nat, i as nat) as int, wn as int);
                assert(n - (i + 1) == s);
            }
            add_words(&mut acc, &shifted);
            proof {
                lemma_add_mod_noop(
                    nat_of(acc@) as int,
                    0,
                    wn as int,
                );
            }
            i += 1;
        }
        if lneg != rneg {
            neg_words(&mut acc);
        }
        WideFloat { words: acc }
    }
    /// Replaces this number with its product by `rhs`, as [`WideFloat::mul`]
    /// computes it.
    pub fn mul_assign(&mut self, rhs: &Self)
        requires
            old(self)@.len() == rhs@.len(),
        ensures
            final(self)@.len() == old(self)@.len(),
            nat_of(final(self)@) == mul_spec(old(self)@, rhs@),
    {
        *self = self.mul(rhs);
    }

    /// Compares by value. The integer words are compared as signed integers
    /// first; when they are equal, the fraction words are compared as one
    /// unsigned integer, most significant word first.
    pub fn cmp(&self, other: &Self) -> (r: Ordering)
        requires
            self@.len() == other@.len(),
        ensures
            r == cmp_spec(self@, other@),
            r == Ordering::Equal <==> self@ == other@,
    {
        proof {
            use_type_invariant(self);
            lemma_int_of_split(self@);
            lemma_int_of_split(other@);
        }
        let n = self.words.len();
        let ghost (a, b) = (self@, other@);
        let ghost w = wbase((n - 1) as nat);
        proof {
            lemma_wbase_succ((n - 1) as nat);
            lemma_bound(a.drop_last());
            lemma_bound(b.drop_last());
        }
        let fa = self.floor();
        let fb = other.floor();
        if fa < fb {
            assert(fa * w + nat_of(a.drop_last()) < fb * w + nat_of(b.drop_last()))
                by (nonlinear_arith)
                requires
                    fa < fb,
                    nat_of(a.drop_last()) < w,
            ;
            return Ordering::Less;
        }
        if fa > fb {
            assert(fb * w + nat_of(b.drop_last()) < fa * w + nat_of(a.drop_last()))
                by (nonlinear_arith)
                requires
                    fb < fa,
                    nat_of(b.drop_last()) < w,
            ;
            return Ordering::Greater;
        }
        let (ta, tb) = (self.words[n - 1], other.words[n - 1]);
        assert(ta == tb) by (bit_vector)
            requires
                ta as i32 == tb as i32,
        ;
        let mut i: usize = n - 1;
        while i > 0
            invariant
                n == a.len(),
                n == b.len(),
                a == self@,
                b == other@,
                i < n,
                forall|k: int| i <= k < n ==> a[k] == b[k],
            decreases i,
        {
            let (x, y) = (self.words[i - 1], other.words[i - 1]);
            if x != y {
                proof {
                    lemma_int_of_split(a);
                    lemma_int_of_split(b);
                    let (da, db) = (a.drop_last(), b.drop_last());
                    if x < y {
                        lemma_lex_lt(da, db, (i - 1) as nat);
                    } else {
                        lemma_lex_lt(db, da, (i - 1) as nat);
                    }
                }
                if x < y {
                    return Ordering::Less;
                } else {
                    return Ordering::Greater;
                }
            }
            i -= 1;
        }
        assert(a =~= b);
        Ordering::Equal
    }

    /// Compares by value, as [`WideFloat::cmp`] does.
    pub fn partial_cmp(&self, other: &Self) -> (r: Option<Ordering>)
        requires
            self@.len() == other@.len(),
        ensures
            r == Some(cmp_spec(self@, other@)),
    {
        Some(self.cmp(other))
    }

    /// How many words must be added at the least significant end (positive)
    /// or removed from it (negative) for this number to hold at least
    /// `extra_bits` bits after its first set bit.
    pub fn precision_diff(&self, extra_bits: usize) -> (r: isize)
        ensures
            r == precision_diff_spec(self@, extra_bits as nat),
    {
        proof {
            use_type_invariant(self);
        }
        let n = self.words.len();
        let extra_words = extra_bits / WORD_WIDTH + 1;
        let rem = (extra_bits % WORD_WIDTH) as u32;
        let threshold: u32 = if rem == 0 {
            0
        } else {
            proof {
                lemma_u32_pow2_no_overflow((rem - 1) as nat);
                lemma_u32_shl_is_mul(1, (rem - 1) as u32);
            }
            1u32 << (rem - 1)
        };
        let mut words: usize = n;
        assert(self@.take(n as int) =~= self@);
        while words > 0 && self.words[words - 1] == 0
            invariant
                words <= n,
                n == self@.len(),
                top_len(self@) == top_len(self@.take(words as int)),
                top_word(self@) == top_word(self@.take(words as int)),
            decreases words,
        {
            assert(self@.take(words as int).drop_last() =~= self@.take(words - 1));
            words -= 1;
        }
        let ls_word: u32 = if words > 0 {
            self.words[words - 1]
        } else {
            0
        };
        proof {
            assert(self@.take(n as int) =~= self@);
            if words == 0 {
                assert(self@.take(0) =~= Seq::<u32>::empty());
            }
        }
        let flag: isize = if ls_word <= threshold {
            1
        } else {
            0
        };
        extra_words as isize - words as isize + flag
    }

    /// Inserts `word_diff` zero words at the least significant end when it is
    /// positive, which keeps the value exactly; removes `-word_diff` words
    /// from there when it is negative, which drops the lowest bits.
    pub fn change_precision(&mut self, word_diff: isize)
        requires
            1 <= old(self)@.len() + word_diff <= isize::MAX,
        ensures
            final(self)@.len() == old(self)@.len() + word_diff,
            final(self)@ == resized(old(self)@, word_diff as int),
            word_diff >= 0 ==> nat_of(final(self)@) == nat_of(old(self)@) * wbase(
                word_diff as nat,
            ),
            word_diff < 0 ==> nat_of(final(self)@) == nat_of(old(self)@) / wbase(
                (-word_diff) as nat,
            ),
    {
        proof {
            use_type_invariant(&*self);
        }
        let mut words = self.words.clone();
        let ghost x = self@;
        assert(words@ =~= x);
        if word_diff >= 0 {
            let k = word_diff as usize;
            let mut j: usize = 0;
            while j < k
                invariant
                    j <= k,
                    k == word_diff,
                    x.len() + k <= isize::MAX,
                    words@ == Seq::new(j as nat, |i: int| 0u32) + x,
                decreases k - j,
            {
                words.insert(0, 0);
                assert(words@ =~= Seq::new((j + 1) as nat, |i: int| 0u32) + x);
                j += 1;
            }
            proof {
                let z = Seq::new(k as nat, |i: int| 0u32);
                lemma_split(z + x, k as nat);
                assert((z + x).take(k as int) =~= z);
                assert((z + x).skip(k as int) =~= x);
                lemma_zeros(k as nat);
                assert(wbase(k as nat) * nat_of(x) == nat_of(x) * wbase(k as nat))
                    by (nonlinear_arith);
            }
        } else {
            let k = (-word_diff) as usize;
            let mut j: usize = 0;
            assert(x.skip(0) =~= x);
            while j < k
                invariant
                    j <= k,
                    k == -word_diff,
                    k < x.len(),
                    words@ == x.skip(j as int),
                decreases k - j,
            {
                words.remove(0);
                assert(words@ =~= x.skip(j + 1));
                j += 1;
            }
            proof {
                lemma_split(x, k as nat);
                lemma_bound(x.take(k as int));
                lemma_wbase_succ(k as nat);
                let (t, h) = (nat_of(x.take(k as int)), nat_of(x.skip(k as int)));
                assert(wbase(k as nat) * h == h * wbase(k as nat)) by (nonlinear_arith);
                lemma_fundamental_div_mod_converse(
                    nat_of(x) as int,
                    wbase(k as nat) as int,
                    h as int,
                    t as int,
                );
            }
        }
        *self = WideFloat { words };
    }
}

impl PartialEq for WideFloat {
    fn eq(&self, other: &Self) -> (r: bool) {
        let n = self.words.len();
        if n != other.words.len() {
            return false;
        }
        let mut i: usize = 0;
        while i < n
            invariant
                n == self@.len(),
                n == other@.len(),
                i <= n,
                forall|k: int| 0 <= k < i ==> self@[k] == other@[k],
            decreases n - i,
        {
            if self.words[i] != other.words[i] {
                return false;
            }
            i += 1;
        }
        assert(self@ =~= other@);
        true
    }
}

impl vstd::std_specs::cmp::PartialEqSpecImpl for WideFloat {
    open spec fn obeys_eq_spec() -> bool {
        true
    }

    open spec fn eq_spec(&self, other: &WideFloat) -> bool {
        self@ == other@
    }
}

impl Eq for WideFloat {

}

impl PartialEq<i32> for WideFloat {
    fn eq(&self, other: &i32) -> (r: bool) {
        self.floor() == *other && self.is_int()
    }
}

impl vstd::std_specs::cmp::PartialEqSpecImpl<i32> for WideFloat {
    open spec fn obeys_eq_spec() -> bool {
        true
    }

    open spec fn eq_spec(&self, other: &i32) -> bool {
        self@.last() as i32 == *other && frac_is_zero(self@)
    }
}

impl PartialOrd<i32> for WideFloat {
    fn partial_cmp(&self, other: &i32) -> (r: Option<Ordering>) {
        let f = self.floor();
        if f < *other {
            Some(Ordering::Less)
        } else if f > *other {
            Some(Ordering::Greater)
        } else if self.is_int() {
            Some(Ordering::Equal)
        } else {
            Some(Ordering::Greater)
        }
    }
}

impl vstd::std_specs::cmp::PartialOrdSpecImpl<i32> for WideFloat {
    open spec fn obeys_partial_cmp_spec() -> bool {
        true
    }

    open spec fn partial_cmp_spec(&self, other: &i32) -> Option<Ordering> {
        Some(cmp_i32_spec(self@, *other))
    }
}

impl Clone for WideFloat {
    fn clone(&self) -> (r: Self)
        ensures
            r@ == self@,
    {
        proof {
            use_type_invariant(self);
        }
        let words = self.words.clone();
        assert(words@ =~= self@);
        WideFloat { words }
    }
}

} // verus!
