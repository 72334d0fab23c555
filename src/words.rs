//! Little-endian sequences of 32-bit words: their value, and the carrying
//! word-by-word operations on them.
use vstd::arithmetic::power2::{
    lemma2_to64, lemma_pow2_adds, lemma_pow2_pos, lemma_pow2_strictly_increases, pow2,
};
use vstd::bits::{lemma_u64_pow2_no_overflow, lemma_u64_shl_is_mul};
use vstd::arithmetic::div_mod::{lemma_fundamental_div_mod_converse, lemma_mod_add_multiples_vanish};
use vstd::prelude::*;

verus! {

/// `2^(32 * k)`: the weight of word `k`.
pub open spec fn wbase(k: nat) -> nat {
    pow2(32 * k)
}

/// The unsigned value of `s`, word 0 being the least significant.
pub open spec fn nat_of(s: Seq<u32>) -> nat
    decreases s.len(),
{
    if s.len() == 0 {
        0
    } else {
        s[0] as nat + 0x1_0000_0000 * nat_of(s.drop_first())
    }
}

pub proof fn lemma_wbase_one()
    ensures
        wbase(1) == 0x1_0000_0000,
        wbase(0) == 1,
{
    lemma2_to64();
}

pub proof fn lemma_wbase_succ(k: nat)
    ensures
        wbase(k + 1) == 0x1_0000_0000 * wbase(k),
        wbase(k) > 0,
{
    lemma_wbase_one();
    lemma_pow2_adds(32, 32 * k);
    assert(32 * (k + 1) == 32 + 32 * k) by (nonlinear_arith);
    lemma_pow2_pos(32 * k);
}

pub proof fn lemma_wbase_adds(a: nat, b: nat)
    ensures
        wbase(a + b) == wbase(a) * wbase(b),
{
    lemma_pow2_adds(32 * a, 32 * b);
    assert(32 * (a + b) == 32 * a + 32 * b) by (nonlinear_arith);
}

/// Splitting a word sequence at `i` splits its value.
pub proof fn lemma_split(s: Seq<u32>, i: nat)
    requires
        i <= s.len(),
    ensures
        nat_of(s) == nat_of(s.take(i as int)) + wbase(i) * nat_of(s.skip(i as int)),
    decreases i,
{
    if i == 0 {
        lemma_wbase_one();
        assert(s.take(0) =~= Seq::<u32>::empty());
        assert(s.skip(0) =~= s);
    } else {
        let t = s.drop_first();
        lemma_split(t, (i - 1) as nat);
        assert(t.skip(i - 1) =~= s.skip(i as int));
        assert(s.take(i as int).drop_first() =~= t.take(i - 1));
        let x = nat_of(s.skip(i as int));
        let p = nat_of(t.take(i - 1));
        lemma_wbase_succ((i - 1) as nat);
        let w = wbase((i - 1) as nat);
        assert(0x1_0000_0000 * (p + w * x) == 0x1_0000_0000 * p + (0x1_0000_0000 * w) * x)
            by (nonlinear_arith);
    }
}

/// The value of `s` fits in its words.
pub proof fn lemma_bound(s: Seq<u32>)
    ensures
        nat_of(s) < wbase(s.len()),
    decreases s.len(),
{
    lemma_wbase_one();
    if s.len() > 0 {
        let t = s.drop_first();
        lemma_bound(t);
        lemma_wbase_succ(t.len());
        let v = nat_of(t);
        let w = wbase(t.len());
        assert(s[0] as nat + 0x1_0000_0000 * v < 0x1_0000_0000 * w) by (nonlinear_arith)
            requires
                v < w,
                s[0] < 0x1_0000_0000,
        ;
    }
}

/// Appending a word at the most significant end.
pub proof fn lemma_push(s: Seq<u32>, w: u32)
    ensures
        nat_of(s.push(w)) == nat_of(s) + w * wbase(s.len()),
{
    let t = s.push(w);
    lemma_split(t, s.len());
    assert(t.take(s.len() as int) =~= s);
    assert(t.skip(s.len() as int) =~= seq![w]);
    assert(seq![w].drop_first() =~= Seq::<u32>::empty());
    assert(nat_of(Seq::<u32>::empty()) == 0);
    assert(nat_of(seq![w]) == w);
}

/// `x` reduced modulo `2^(32 * n)`: the value that `n` words hold of `x`.
pub open spec fn wrap(x: int, n: nat) -> int {
    x % (wbase(n) as int)
}

/// One more word of a prefix.
pub proof fn lemma_take_succ(s: Seq<u32>, i: nat)
    requires
        i < s.len(),
    ensures
        nat_of(s.take(i as int + 1)) == nat_of(s.take(i as int)) + s[i as int] * wbase(i),
{
    assert(s.take(i as int).push(s[i as int]) =~= s.take(i as int + 1));
    lemma_push(s.take(i as int), s[i as int]);
}

/// A value and a carry out of the top word determine the value modulo the
/// width.
pub proof fn lemma_carry_out(v: nat, c: nat, m: nat, x: int)
    requires
        v < m,
        v + c * m == x,
    ensures
        v == x % (m as int),
{
    lemma_fundamental_div_mod_converse(x, m as int, c as int, v as int);
}

/// A sequence of zero words has value zero.
pub proof fn lemma_zeros(n: nat)
    ensures
        nat_of(Seq::new(n, |i: int| 0u32)) == 0,
    decreases n,
{
    if n > 0 {
        assert(Seq::new(n, |i: int| 0u32).drop_first() =~= Seq::new((n - 1) as nat, |i: int| 0u32));
        lemma_zeros((n - 1) as nat);
    }
}

/// Word sequences of one length are equal exactly when their values are.
pub proof fn lemma_unique(a: Seq<u32>, b: Seq<u32>)
    requires
        a.len() == b.len(),
        nat_of(a) == nat_of(b),
    ensures
        a == b,
    decreases a.len(),
{
    if a.len() > 0 {
        let (ta, tb) = (a.drop_first(), b.drop_first());
        lemma_bound(ta);
        lemma_bound(tb);
        let (x, y) = (nat_of(ta), nat_of(tb));
        assert(a[0] == b[0] && x == y) by (nonlinear_arith)
            requires
                a[0] as nat + 0x1_0000_0000 * x == b[0] as nat + 0x1_0000_0000 * y,
                a[0] < 0x1_0000_0000,
                b[0] < 0x1_0000_0000,
        ;
        lemma_unique(ta, tb);
        assert(a =~= b) by {
            assert forall|i: int| 0 <= i < a.len() implies a[i] == b[i] by {
                if i > 0 {
                    assert(a[i] == ta[i - 1]);
                }
            }
        }
    }
}

/// Word `i` of the value `v`.
pub open spec fn digit(v: nat, i: nat) -> nat {
    (v / wbase(i)) % 0x1_0000_0000
}

/// Word `i` of a sequence is word `i` of its value.
pub proof fn lemma_digit(s: Seq<u32>, i: nat)
    requires
        i < s.len(),
    ensures
        s[i as int] == digit(nat_of(s), i),
{
    lemma_split(s, i);
    lemma_bound(s.take(i as int));
    lemma_wbase_succ(i);
    let hi = s.skip(i as int);
    let (t, h) = (nat_of(s.take(i as int)), nat_of(hi));
    assert(wbase(i) * h == h * wbase(i)) by (nonlinear_arith);
    lemma_fundamental_div_mod_converse(nat_of(s) as int, wbase(i) as int, h as int, t as int);
    assert(hi[0] == s[i as int]);
    lemma_fundamental_div_mod_converse(
        h as int,
        0x1_0000_0000,
        nat_of(hi.drop_first()) as int,
        hi[0] as int,
    );
}

/// The `n` words of the value `v` (modulo `2^(32 * n)`).
pub open spec fn words_of(v: nat, n: nat) -> Seq<u32> {
    Seq::new(n, |i: int| digit(v, i as nat) as u32)
}

/// A word sequence is the words of its value.
pub proof fn lemma_words_of(s: Seq<u32>)
    ensures
        words_of(nat_of(s), s.len()) == s,
{
    assert forall|i: int| 0 <= i < s.len() implies words_of(nat_of(s), s.len())[i] == s[i] by {
        lemma_digit(s, i as nat);
    }
    assert(words_of(nat_of(s), s.len()) =~= s);
}

/// Adds `b` into `a`, word by word with carry; the carry out of the top word
/// is discarded.
pub fn add_words(a: &mut Vec<u32>, b: &Vec<u32>)
    requires
        old(a)@.len() == b@.len(),
    ensures
        final(a)@.len() == old(a)@.len(),
        nat_of(final(a)@) == wrap(nat_of(old(a)@) as int + nat_of(b@), old(a)@.len()),
{
    let n = a.len();
    let ghost x = a@;
    let mut carry: u64 = 0;
    let mut i: usize = 0;
    proof {
        lemma_wbase_one();
        assert(x.take(0) =~= Seq::<u32>::empty());
        assert(b@.take(0) =~= Seq::<u32>::empty());
    }
    while i < n
        invariant
            n == x.len(),
            n == b@.len(),
            a@.len() == n,
            i <= n,
            carry <= 1,
            forall|j: int| i <= j < n ==> a@[j] == x[j],
            nat_of(a@.take(i as int)) + carry * wbase(i as nat) == nat_of(x.take(i as int))
                + nat_of(b@.take(i as int)),
        decreases n - i,
    {
        let t: u64 = a[i] as u64 + b[i] as u64 + carry;
        let w = (t % 0x1_0000_0000) as u32;
        let ghost before = a@;
        a.set(i, w);
        proof {
            let s = a@;
            assert(s.take(i as int) =~= before.take(i as int));
            lemma_take_succ(s, i as nat);
            lemma_take_succ(x, i as nat);
            lemma_take_succ(b@, i as nat);
            lemma_wbase_succ(i as nat);
            let wb = wbase(i as nat);
            let c2 = t / 0x1_0000_0000;
            let (p, q) = (x[i as int] as int, b@[i as int] as int);
            assert(w + c2 * 0x1_0000_0000 == p + q + carry);
            assert((w + c2 * 0x1_0000_0000) * wb == w * wb + c2 * (0x1_0000_0000 * wb))
                by (nonlinear_arith);
            assert((p + q + carry) * wb == p * wb + q * wb + carry * wb) by (nonlinear_arith);
        }
        carry = t / 0x1_0000_0000;
        i += 1;
    }
    proof {
        let s = a@;
        assert(s.take(n as int) =~= s);
        assert(x.take(n as int) =~= x);
        assert(b@.take(n as int) =~= b@);
        lemma_bound(s);
        lemma_carry_out(nat_of(s), carry as nat, wbase(n as nat), nat_of(x) as int + nat_of(b@));
    }
}

/// Subtracts `b` from `a`, word by word with borrow; the borrow out of the
/// top word is discarded.
pub fn sub_words(a: &mut Vec<u32>, b: &Vec<u32>)
    requires
        old(a)@.len() == b@.len(),
    ensures
        final(a)@.len() == old(a)@.len(),
        nat_of(final(a)@) == wrap(nat_of(old(a)@) - nat_of(b@), old(a)@.len()),
{
    let n = a.len();
    let ghost x = a@;
    let mut borrow: u64 = 0;
    let mut i: usize = 0;
    proof {
        lemma_wbase_one();
        assert(x.take(0) =~= Seq::<u32>::empty());
        assert(b@.take(0) =~= Seq::<u32>::empty());
    }
    while i < n
        invariant
            n == x.len(),
            n == b@.len(),
            a@.len() == n,
            i <= n,
            borrow <= 1,
            forall|j: int| i <= j < n ==> a@[j] == x[j],
            nat_of(a@.take(i as int)) - borrow * wbase(i as nat) == nat_of(x.take(i as int))
                - nat_of(b@.take(i as int)),
        decreases n - i,
    {
        let p: u64 = a[i] as u64;
        let q: u64 = b[i] as u64 + borrow;
        let (w, b2): (u32, u64) = if p >= q {
            ((p - q) as u32, 0)
        } else {
            ((p + 0x1_0000_0000 - q) as u32, 1)
        };
        let ghost before = a@;
        a.set(i, w);
        proof {
            let s = a@;
            assert(s.take(i as int) =~= before.take(i as int));
            lemma_take_succ(s, i as nat);
            lemma_take_succ(x, i as nat);
            lemma_take_succ(b@, i as nat);
            lemma_wbase_succ(i as nat);
            let wb = wbase(i as nat);
            let (u, v) = (x[i as int] as int, b@[i as int] as int);
            assert(w - b2 * 0x1_0000_0000 == u - v - borrow);
            assert((w - b2 * 0x1_0000_0000) * wb == w * wb - b2 * (0x1_0000_0000 * wb))
                by (nonlinear_arith);
            assert((u - v - borrow) * wb == u * wb - v * wb - borrow * wb) by (nonlinear_arith);
        }
        borrow = b2;
        i += 1;
    }
    proof {
        let s = a@;
        assert(s.take(n as int) =~= s);
        assert(x.take(n as int) =~= x);
        assert(b@.take(n as int) =~= b@);
        lemma_bound(s);
        let wb = wbase(n as nat) as int;
        assert(-(borrow as int) * wb == -(borrow * wb)) by (nonlinear_arith);
        lemma_fundamental_div_mod_converse(
            nat_of(x) - nat_of(b@),
            wbase(n as nat) as int,
            -(borrow as int),
            nat_of(s) as int,
        );
    }
}

/// Two's-complement negation of `a`: every word complemented, then one added
/// with carry across the whole buffer.
pub fn neg_words(a: &mut Vec<u32>)
    ensures
        final(a)@.len() == old(a)@.len(),
        nat_of(final(a)@) == wrap(-nat_of(old(a)@), old(a)@.len()),
{
    let n = a.len();
    let ghost x = a@;
    let mut carry: u64 = 1;
    let mut i: usize = 0;
    proof {
        lemma_wbase_one();
        assert(x.take(0) =~= Seq::<u32>::empty());
        assert(a@.take(0) =~= Seq::<u32>::empty());
    }
    while i < n
        invariant
            n == x.len(),
            a@.len() == n,
            i <= n,
            carry <= 1,
            forall|j: int| i <= j < n ==> a@[j] == x[j],
            nat_of(a@.take(i as int)) + carry * wbase(i as nat) == wbase(i as nat) - nat_of(
                x.take(i as int),
            ),
        decreases n - i,
    {
        let t: u64 = (0xffff_ffffu32 - a[i]) as u64 + carry;
        let w = (t % 0x1_0000_0000) as u32;
        let ghost before = a@;
        a.set(i, w);
        proof {
            let s = a@;
            assert(s.take(i as int) =~= before.take(i as int));
            lemma_take_succ(s, i as nat);
            lemma_take_succ(x, i as nat);
            lemma_wbase_succ(i as nat);
            let wb = wbase(i as nat);
            let c2 = t / 0x1_0000_0000;
            let u = x[i as int] as int;
            assert(w + c2 * 0x1_0000_0000 == 0xffff_ffff - u + carry);
            assert((w + c2 * 0x1_0000_0000) * wb == w * wb + c2 * (0x1_0000_0000 * wb))
                by (nonlinear_arith);
            assert((0xffff_ffff - u + carry) * wb == 0x1_0000_0000 * wb - u * wb - wb + carry * wb)
                by (nonlinear_arith);
        }
        carry = t / 0x1_0000_0000;
        i += 1;
    }
    proof {
        let s = a@;
        assert(s.take(n as int) =~= s);
        assert(x.take(n as int) =~= x);
        lemma_bound(s);
        lemma_carry_out(nat_of(s), carry as nat, wbase(n as nat), wbase(n as nat) - nat_of(x));
        lemma_mod_add_multiples_vanish(-nat_of(x), wbase(n as nat) as int);
    }
}

/// Zero words appended at the most significant end change no value.
pub proof fn lemma_zero_extend(s: Seq<u32>, k: nat)
    ensures
        nat_of(s + Seq::new(k, |i: int| 0u32)) == nat_of(s),
{
    let t = s + Seq::new(k, |i: int| 0u32);
    lemma_split(t, s.len());
    assert(t.take(s.len() as int) =~= s);
    assert(t.skip(s.len() as int) =~= Seq::new(k, |i: int| 0u32));
    lemma_zeros(k);
}

/// Writing `v` over a zero word `j` adds `v` at that word's weight.
pub proof fn lemma_set_zero_word(s: Seq<u32>, j: nat, v: u32)
    requires
        j < s.len(),
        s[j as int] == 0,
    ensures
        nat_of(s.update(j as int, v)) == nat_of(s) + v * wbase(j),
{
    let t = s.update(j as int, v);
    lemma_split(s, j);
    lemma_split(t, j);
    assert(t.take(j as int) =~= s.take(j as int));
    let (hs, ht) = (s.skip(j as int), t.skip(j as int));
    assert(hs.drop_first() =~= ht.drop_first());
    let w = wbase(j);
    let rest = nat_of(hs.drop_first());
    assert(w * (v + 0x1_0000_0000 * rest) == w * (0x1_0000_0000 * rest) + v * w)
        by (nonlinear_arith);
}

/// The words of `a` moved `rot` places toward the least significant end,
/// zeros filling the vacated top words: `a / 2^(32 * rot)`.
pub fn shift_words_down(a: &Vec<u32>, rot: usize) -> (r: Vec<u32>)
    ensures
        r@.len() == a@.len(),
        forall|j: int|
            0 <= j < a@.len() ==> r@[j] == (if j + rot < a@.len() {
                a@[j + rot]
            } else {
                0u32
            }),
        nat_of(r@) == nat_of(a@) / wbase(rot as nat),
{
    let n = a.len();
    let mut r: Vec<u32> = Vec::with_capacity(n);
    let mut j: usize = 0;
    while j < n
        invariant
            n == a@.len(),
            j <= n,
            r@.len() == j,
            forall|k: int|
                0 <= k < j ==> r@[k] == (if k + rot < n {
                    a@[k + rot]
                } else {
                    0u32
                }),
        decreases n - j,
    {
        if rot <= n && j < n - rot {
            r.push(a[j + rot]);
        } else {
            r.push(0);
        }
        j += 1;
    }
    proof {
        let x = a@;
        lemma_wbase_succ(rot as nat);
        if rot >= n {
            assert(r@ =~= Seq::new(n as nat, |i: int| 0u32));
            lemma_zeros(n as nat);
            lemma_bound(x);
            lemma_wbase_adds(n as nat, (rot - n) as nat);
            lemma_wbase_succ((rot - n) as nat);
            assert(wbase(n as nat) <= wbase(rot as nat)) by (nonlinear_arith)
                requires
                    wbase(rot as nat) == wbase(n as nat) * wbase((rot - n) as nat),
                    wbase((rot - n) as nat) > 0,
            ;
            lemma_fundamental_div_mod_converse(
                nat_of(x) as int,
                wbase(rot as nat) as int,
                0,
                nat_of(x) as int,
            );
        } else {
            let hi = x.skip(rot as int);
            assert(r@ =~= hi + Seq::new(rot as nat, |i: int| 0u32));
            lemma_zero_extend(hi, rot as nat);
            lemma_split(x, rot as nat);
            lemma_bound(x.take(rot as int));
            assert(wbase(rot as nat) * nat_of(hi) == nat_of(hi) * wbase(rot as nat))
                by (nonlinear_arith);
            lemma_fundamental_div_mod_converse(
                nat_of(x) as int,
                wbase(rot as nat) as int,
                nat_of(hi) as int,
                nat_of(x.take(rot as int)) as int,
            );
        }
    }
    r
}

/// The words of `a` moved `rot` places toward the most significant end,
/// zeros filling the vacated low words and the top words dropped:
/// `a * 2^(32 * rot)` modulo `2^(32 * n)`.
pub fn shift_words_up(a: &Vec<u32>, rot: usize) -> (r: Vec<u32>)
    ensures
        r@.len() == a@.len(),
        nat_of(r@) == wrap(nat_of(a@) as int * wbase(rot as nat), a@.len()),
{
    let n = a.len();
    let mut r: Vec<u32> = Vec::with_capacity(n);
    let mut j: usize = 0;
    while j < n
        invariant
            n == a@.len(),
            j <= n,
            r@.len() == j,
            forall|k: int|
                0 <= k < j ==> r@[k] == (if k >= rot {
                    a@[k - rot]
                } else {
                    0u32
                }),
        decreases n - j,
    {
        if j >= rot {
            r.push(a[j - rot]);
        } else {
            r.push(0);
        }
        j += 1;
    }
    proof {
        let x = a@;
        let wn = wbase(n as nat);
        lemma_wbase_succ(n as nat);
        lemma_wbase_succ(rot as nat);
        if rot >= n {
            assert(r@ =~= Seq::new(n as nat, |i: int| 0u32));
            lemma_zeros(n as nat);
            lemma_wbase_adds(n as nat, (rot - n) as nat);
            let q = nat_of(x) * wbase((rot - n) as nat);
            assert(nat_of(x) * wbase(rot as nat) == q * wn) by (nonlinear_arith)
                requires
                    wbase(rot as nat) == wn * wbase((rot - n) as nat),
                    q == nat_of(x) * wbase((rot - n) as nat),
            ;
            lemma_fundamental_div_mod_converse(q as int * wn, wn as int, q as int, 0);
        } else {
            let m = (n - rot) as nat;
            let lo = x.take(m as int);
            let z = Seq::new(rot as nat, |i: int| 0u32);
            assert(r@ =~= z + lo);
            lemma_split(z + lo, rot as nat);
            assert((z + lo).take(rot as int) =~= z);
            assert((z + lo).skip(rot as int) =~= lo);
            lemma_zeros(rot as nat);
            lemma_split(x, m);
            lemma_bound(lo);
            lemma_wbase_adds(m, rot as nat);
            let (wr, wm) = (wbase(rot as nat), wbase(m));
            let (p, h) = (nat_of(lo), nat_of(x.skip(m as int)));
            assert(nat_of(x) * wr == h * wn + wr * p) by (nonlinear_arith)
                requires
                    nat_of(x) == p + wm * h,
                    wn == wm * wr,
            ;
            assert(wr * p < wn) by (nonlinear_arith)
                requires
                    p < wm,
                    wn == wm * wr,
                    wr > 0,
            ;
            lemma_fundamental_div_mod_converse(
                nat_of(x) as int * wr,
                wn as int,
                h as int,
                (wr * p) as int,
            );
        }
    }
    r
}

/// Multiplies `a` by the word `m` in place; returns the word carried out of
/// the top.
pub fn mul_word(a: &mut Vec<u32>, m: u32) -> (carry: u32)
    ensures
        final(a)@.len() == old(a)@.len(),
        nat_of(final(a)@) + carry * wbase(old(a)@.len()) == nat_of(old(a)@) * m,
{
    let n = a.len();
    let ghost x = a@;
    let mut carry: u64 = 0;
    let mut i: usize = 0;
    proof {
        lemma_wbase_one();
        assert(x.take(0) =~= Seq::<u32>::empty());
        assert(a@.take(0) =~= Seq::<u32>::empty());
        assert(nat_of(Seq::<u32>::empty()) == 0);
    }
    while i < n
        invariant
            n == x.len(),
            a@.len() == n,
            i <= n,
            carry < 0x1_0000_0000,
            forall|j: int| i <= j < n ==> a@[j] == x[j],
            nat_of(a@.take(i as int)) + carry * wbase(i as nat) == nat_of(x.take(i as int)) * m,
        decreases n - i,
    {
        let u: u64 = a[i] as u64;
        assert(u * (m as u64) <= 0xffff_fffe_0000_0001) by (nonlinear_arith)
            requires
                u < 0x1_0000_0000,
                m < 0x1_0000_0000,
        ;
        let t: u64 = u * (m as u64) + carry;
        let w = (t % 0x1_0000_0000) as u32;
        let ghost before = a@;
        a.set(i, w);
        proof {
            let s = a@;
            assert(s.take(i as int) =~= before.take(i as int));
            lemma_take_succ(s, i as nat);
            lemma_take_succ(x, i as nat);
            lemma_wbase_succ(i as nat);
            let wb = wbase(i as nat);
            let c2 = t / 0x1_0000_0000;
            let p = nat_of(x.take(i as int));
            assert(w + c2 * 0x1_0000_0000 == u * m + carry);
            assert((w + c2 * 0x1_0000_0000) * wb == w * wb + c2 * (0x1_0000_0000 * wb))
                by (nonlinear_arith);
            assert((p + u * wb) * m == p * m + (u * m) * wb) by (nonlinear_arith);
            assert((u * m + carry) * wb == (u * m) * wb + carry * wb) by (nonlinear_arith);
        }
        carry = t / 0x1_0000_0000;
        i += 1;
    }
    proof {
        assert(a@.take(n as int) =~= a@);
        assert(x.take(n as int) =~= x);
    }
    carry as u32
}

/// Divides `a` by `2^shift` in place, rounding down: one pass from the most
/// significant word down, each word passing its low bits to the next.
pub fn div_pow2_words(a: &mut Vec<u32>, shift: u32)
    requires
        shift < 32,
    ensures
        final(a)@.len() == old(a)@.len(),
        nat_of(final(a)@) == nat_of(old(a)@) / pow2(shift as nat),
{
    let n = a.len();
    let ghost x = a@;
    proof {
        lemma_u64_pow2_no_overflow(shift as nat);
        lemma_u64_shl_is_mul(1, shift as u64);
        lemma_pow2_pos(shift as nat);
        lemma_pow2_strictly_increases(shift as nat, 32);
        lemma2_to64();
        assert(x.skip(n as int) =~= Seq::<u32>::empty());
        assert(a@.skip(n as int) =~= Seq::<u32>::empty());
        assert(nat_of(Seq::<u32>::empty()) == 0);
    }
    let d: u64 = 1u64 << (shift as u64);
    let mut carry: u64 = 0;
    let mut j: usize = n;
    while j > 0
        invariant
            n == x.len(),
            a@.len() == n,
            j <= n,
            d == pow2(shift as nat),
            0 < d <= 0x8000_0000,
            carry < d,
            forall|k: int| 0 <= k < j ==> a@[k] == x[k],
            nat_of(x.skip(j as int)) == nat_of(a@.skip(j as int)) * d + carry,
        decreases j,
    {
        let ghost before = a@;
        let t: u64 = carry * 0x1_0000_0000 + a[j - 1] as u64;
        assert(t < d * 0x1_0000_0000) by (nonlinear_arith)
            requires
                t == carry * 0x1_0000_0000 + a@[j - 1],
                a@[j - 1] < 0x1_0000_0000,
                carry < d,
        ;
        let q = t / d;
        assert(q < 0x1_0000_0000) by (nonlinear_arith)
            requires
                q == t / d,
                t < d * 0x1_0000_0000,
                d > 0,
        ;
        a.set(j - 1, q as u32);
        proof {
            let s = a@;
            assert(s.skip(j as int) =~= before.skip(j as int));
            assert(s.skip(j - 1).drop_first() =~= s.skip(j as int));
            assert(x.skip(j - 1).drop_first() =~= x.skip(j as int));
            assert(s.skip(j - 1)[0] == q);
            assert(x.skip(j - 1)[0] == x[j - 1]);
            let hq = nat_of(before.skip(j as int));
            let r2 = t % d;
            assert(t == q * d + r2) by (nonlinear_arith)
                requires
                    q == t / d,
                    r2 == t % d,
                    d > 0,
            ;
            assert(x[j - 1] + 0x1_0000_0000 * (hq * d + carry) == (q + 0x1_0000_0000 * hq) * d
                + r2) by (nonlinear_arith)
                requires
                    t == carry * 0x1_0000_0000 + x[j - 1],
                    t == q * d + r2,
            ;
        }
        carry = t % d;
        j -= 1;
    }
    proof {
        assert(a@.skip(0) =~= a@);
        assert(x.skip(0) =~= x);
        lemma_fundamental_div_mod_converse(
            nat_of(x) as int,
            d as int,
            nat_of(a@) as int,
            carry as int,
        );
    }
}

} // verus!
