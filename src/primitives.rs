//! Screen dimensions, and the coordinates of the view: a position and a
//! per-pixel step in wide fixed point, resized together as the view zooms.
use crate::binary32::{from_f32_error, from_f32_value};
use crate::float::{
    cmp_spec, i32_words, lemma_top_len_bound, mul_spec, precision_diff_spec, resized, WideFloat,
};
use crate::words::{lemma_words_of, nat_of, words_of, wrap};
use std::cmp::Ordering;
use vstd::prelude::*;

verus! {

/// Size of a surface in physical pixels.
#[derive(Debug, Clone, Copy)]
pub struct Dimensions {
    pub width: u32,
    pub height: u32,
}

impl Dimensions {
    /// Dimensions with each side raised to at least one pixel.
    pub fn new_nonzero(width: u32, height: u32) -> (r: Self)
        ensures
            r.width == (if width == 0 { 1 } else { width }),
            r.height == (if height == 0 { 1 } else { height }),
    {
        Self {
            width: if width == 0 { 1 } else { width },
            height: if height == 0 { 1 } else { height },
        }
    }

    /// The shorter of the two sides.
    pub fn shortest_side(&self) -> (r: u32)
        ensures
            r == (if self.width <= self.height { self.width } else { self.height }),
    {
        if self.width <= self.height {
            self.width
        } else {
            self.height
        }
    }
}

/// `w` rounded up to a multiple of `a`.
pub open spec fn align_up(w: int, a: int) -> int {
    (w + a - 1) / a * a
}

/// Size of a surface in logical pixels.
#[derive(Debug, Clone, Copy)]
pub struct ScaledDimensions {
    pub width: u32,
    pub height: u32,
}

impl ScaledDimensions {
    /// The width rounded up to a multiple of `alignment`.
    pub fn aligned_width(&self, alignment: u32) -> (r: u32)
        requires
            alignment > 0,
            align_up(self.width as int, alignment as int) <= u32::MAX,
        ensures
            r == align_up(self.width as int, alignment as int),
            r >= self.width,
            r % alignment == 0,
    {
        let q: u64 = (self.width / alignment) as u64 + if self.width % alignment != 0 {
            1u64
        } else {
            0u64
        };
        proof {
            let (w, a) = (self.width as int, alignment as int);
            vstd::arithmetic::div_mod::lemma_fundamental_div_mod(w, a);
            vstd::arithmetic::div_mod::lemma_fundamental_div_mod(w + a - 1, a);
            let (q0, r0) = (w / a, w % a);
            let q1 = (w + a - 1) / a;
            assert(q1 == q) by (nonlinear_arith)
                requires
                    w == a * q0 + r0,
                    0 <= r0 < a,
                    w + a - 1 == a * q1 + (w + a - 1) % a,
                    0 <= (w + a - 1) % a < a,
                    q == q0 + (if r0 != 0 { 1int } else { 0int }),
            ;
            assert(q * a >= w) by (nonlinear_arith)
                requires
                    w == a * q0 + r0,
                    0 <= r0 < a,
                    q == q0 + (if r0 != 0 { 1int } else { 0int }),
            ;
            vstd::arithmetic::div_mod::lemma_mod_multiples_basic(q as int, a);
        }
        (q * alignment as u64) as u32
    }
}

/// The view: the position `(x, y)`, the step between adjacent pixels, and the
/// precision that the step must keep, all three numbers of one width.
#[derive(Debug)]
pub struct Coordinates {
    /// X coordinate
    pub x: WideFloat,
    /// Y coordinate
    pub y: WideFloat,
    /// delta per pixel
    pub step: WideFloat,
    /// extra precision bit count
    pub precision: usize,
}

/// The `n`-word product of the values `a` and `b`.
pub open spec fn mul_value(a: nat, b: nat, n: nat) -> nat {
    mul_spec(words_of(a, n), words_of(b, n))
}

/// The step after a zoom by the binary32 factor `mul` from the `n`-word step
/// `s`: the product, no greater than the binary32 `limit` while the width is
/// two words.
pub open spec fn zoomed_step(s: Seq<u32>, mul: u32, limit: u32) -> nat {
    let n = s.len();
    let prod = mul_value(nat_of(s), from_f32_value(mul, n), n);
    let lim = from_f32_value(limit, n);
    if n == 2 && cmp_spec(words_of(lim, n), words_of(prod, n)) != Ordering::Greater {
        lim
    } else {
        prod
    }
}

/// A coordinate moved so that the pixel `k` keeps its place when the step
/// changes from `old_step` to `new_step`: `c + (old_step - new_step) * k`.
pub open spec fn anchored(c: nat, old_step: nat, new_step: nat, k: i32, n: nat) -> nat {
    let delta = words_of(wrap(old_step - new_step, n) as nat, n);
    wrap(c as int + mul_spec(delta, i32_words(k, n)), n) as nat
}

/// A fixed-point number in `n` words from a binary32 pattern that converts
/// without error.
fn wide_from_f32(bits: u32, n: usize) -> (r: WideFloat)
    requires
        1 <= n <= isize::MAX,
        from_f32_error(bits) is None,
    ensures
        r@.len() == n,
        nat_of(r@) == from_f32_value(bits, n as nat),
{
    match WideFloat::from_f32(bits, n) {
        Ok(v) => v,
        Err(_) => {
            proof {
                assert(false);
            }
            WideFloat::zero(n)
        },
    }
}

impl Coordinates {
    /// The three numbers share one width.
    pub open spec fn wf(&self) -> bool {
        &&& self.x@.len() == self.step@.len()
        &&& self.y@.len() == self.step@.len()
        &&& 1 <= self.step@.len() <= isize::MAX
    }

    /// Coordinates at the width of two words from binary32 patterns of `x`,
    /// `y` and `step`.
    pub fn new(x: u32, y: u32, step: u32, precision: usize) -> (r: Self)
        requires
            from_f32_error(x) is None,
            from_f32_error(y) is None,
            from_f32_error(step) is None,
        ensures
            r.wf(),
            r.step@.len() == 2,
            nat_of(r.x@) == from_f32_value(x, 2),
            nat_of(r.y@) == from_f32_value(y, 2),
            nat_of(r.step@) == from_f32_value(step, 2),
            r.precision == precision,
    {
        let x = wide_from_f32(x, 2);
        let y = wide_from_f32(y, 2);
        let step = wide_from_f32(step, 2);
        Coordinates { x, y, step, precision }
    }

    /// Coordinates at the width of `size` words whose step is the smallest
    /// positive number with bit `precision` set.
    pub fn new_magnified(x: u32, y: u32, size: usize, precision: usize) -> (r: Self)
        requires
            from_f32_error(x) is None,
            from_f32_error(y) is None,
            1 <= size <= isize::MAX,
            precision / 32 < size,
        ensures
            r.wf(),
            r.step@.len() == size,
            nat_of(r.x@) == from_f32_value(x, size as nat),
            nat_of(r.y@) == from_f32_value(y, size as nat),
            nat_of(r.step@) == vstd::arithmetic::power2::pow2(precision as nat),
            r.precision == precision,
    {
        let step = WideFloat::min_positive(size, precision);
        let x = wide_from_f32(x, size);
        let y = wide_from_f32(y, size);
        Coordinates { x, y, step, precision }
    }

    /// Moves the view by `(dx, dy)` pixels, given as binary32 patterns: each
    /// coordinate loses its delta times the step. The width does not change.
    pub fn move_by_delta(&mut self, dx: u32, dy: u32)
        requires
            old(self).wf(),
            from_f32_error(dx) is None,
            from_f32_error(dy) is None,
        ensures
            final(self).wf(),
            final(self).step == old(self).step,
            final(self).precision == old(self).precision,
            final(self).x@.len() == old(self).x@.len(),
            final(self).y@.len() == old(self).y@.len(),
            nat_of(final(self).x@) == wrap(
                nat_of(old(self).x@) - mul_value(
                    from_f32_value(dx, old(self).step@.len()),
                    nat_of(old(self).step@),
                    old(self).step@.len(),
                ),
                old(self).step@.len(),
            ),
            nat_of(final(self).y@) == wrap(
                nat_of(old(self).y@) - mul_value(
                    from_f32_value(dy, old(self).step@.len()),
                    nat_of(old(self).step@),
                    old(self).step@.len(),
                ),
                old(self).step@.len(),
            ),
    {
        let n = self.size();
        let wdx = wide_from_f32(dx, n);
        let wdy = wide_from_f32(dy, n);
        proof {
            lemma_words_of(self.step@);
            lemma_words_of(wdx@);
            lemma_words_of(wdy@);
        }
        let ddx = wdx.mul(&self.step);
        let ddy = wdy.mul(&self.step);
        self.x.sub_assign(&ddx);
        self.y.sub_assign(&ddy);
    }

    /// The current width in words.
    pub fn size(&self) -> (r: usize)
        requires
            self.wf(),
        ensures
            r == self.step@.len(),
    {
        self.step.word_count()
    }

    /// The precision that the step must keep, in bits.
    pub fn precision(&self) -> (r: usize)
        ensures
            r == self.precision,
    {
        self.precision
    }

    /// Resizes the three numbers so that the step keeps `precision` bits after
    /// its first set bit. The precision kept by later zooms does not change.
    pub fn set_precision(&mut self, precision: usize)
        requires
            old(self).wf(),
            old(self).step@.len() + precision / 32 + 2 <= isize::MAX,
        ensures
            final(self).wf(),
            final(self).precision == old(self).precision,
            final(self).x@ == resized(
                old(self).x@,
                precision_diff_spec(old(self).step@, precision as nat),
            ),
            final(self).y@ == resized(
                old(self).y@,
                precision_diff_spec(old(self).step@, precision as nat),
            ),
            final(self).step@ == resized(
                old(self).step@,
                precision_diff_spec(old(self).step@, precision as nat),
            ),
    {
        let d = self.step.precision_diff(precision);
        proof {
            lemma_top_len_bound(self.step@);
        }
        self.change_precision(d)
    }

    /// Zooms by the binary32 factor `mul` about the pixel `(x, y)`. The
    /// numbers are first resized for the precision to keep; then the step is
    /// multiplied by `mul`, no further than the binary32 `max_limit` while the
    /// width is two words, and the position moves by the old step less the
    /// new one, times the anchor, so that the anchor pixel stays in place.
    pub fn zoom_with_anchor(&mut self, mul: u32, x: i32, y: i32, max_limit: u32)
        requires
            old(self).wf(),
            old(self).step@.len() + old(self).precision / 32 + 2 <= isize::MAX,
            from_f32_error(mul) is None,
            old(self).step@.len() + precision_diff_spec(
                old(self).step@,
                old(self).precision as nat,
            ) == 2 ==> from_f32_error(max_limit) is None,
        ensures
            final(self).wf(),
            final(self).precision == old(self).precision,
            ({
                let d = precision_diff_spec(old(self).step@, old(self).precision as nat);
                let s = resized(old(self).step@, d);
                let n = s.len();
                let ns = zoomed_step(s, mul, max_limit);
                &&& final(self).step@.len() == old(self).step@.len() + d
                &&& nat_of(final(self).step@) == ns
                &&& nat_of(final(self).x@) == anchored(
                    nat_of(resized(old(self).x@, d)),
                    nat_of(s),
                    ns,
                    x,
                    n,
                )
                &&& nat_of(final(self).y@) == anchored(
                    nat_of(resized(old(self).y@, d)),
                    nat_of(s),
                    ns,
                    y,
                    n,
                )
            }),
    {
        let d = self.step.precision_diff(self.precision);
        proof {
            lemma_top_len_bound(self.step@);
        }
        self.change_precision(d);
        let n = self.size();
        let wide_x = WideFloat::from_i32(x, n);
        let wide_y = WideFloat::from_i32(y, n);
        let wide_mul = wide_from_f32(mul, n);
        proof {
            lemma_words_of(self.step@);
            lemma_words_of(wide_mul@);
        }
        let mut new_step = self.step.mul(&wide_mul);
        // no zooming out past the limit while at the narrowest width
        if n == 2 {
            let limit = wide_from_f32(max_limit, n);
            proof {
                lemma_words_of(limit@);
                lemma_words_of(new_step@);
            }
            match limit.cmp(&new_step) {
                Ordering::Greater => {},
                _ => {
                    new_step = limit;
                },
            }
        }
        let delta_x = self.step.clone().sub(&new_step);
        let delta_y = self.step.clone().sub(&new_step);
        proof {
            lemma_words_of(delta_x@);
            lemma_words_of(delta_y@);
        }
        let dx = delta_x.mul(&wide_x);
        let dy = delta_y.mul(&wide_y);
        self.step = new_step;
        self.x.add_assign(&dx);
        self.y.add_assign(&dy);
    }

    /// Resizes the three numbers together by `word_diff` words at their
    /// least significant end.
    fn change_precision(&mut self, word_diff: isize)
        requires
            old(self).wf(),
            1 <= old(self).step@.len() + word_diff <= isize::MAX,
        ensures
            final(self).wf(),
            final(self).precision == old(self).precision,
            final(self).x@ == resized(old(self).x@, word_diff as int),
            final(self).y@ == resized(old(self).y@, word_diff as int),
            final(self).step@ == resized(old(self).step@, word_diff as int),
    {
        self.x.change_precision(word_diff);
        self.y.change_precision(word_diff);
        self.step.change_precision(word_diff);
    }
}

impl Clone for Coordinates {
    fn clone(&self) -> (r: Self)
        ensures
            r.x@ == self.x@,
            r.y@ == self.y@,
            r.step@ == self.step@,
            r.precision == self.precision,
    {
        Coordinates {
            x: self.x.clone(),
            y: self.y.clone(),
            step: self.step.clone(),
            precision: self.precision,
        }
    }
}

} // verus!
