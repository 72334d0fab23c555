//! What the GPU kernels are given. The compute kernel's parameter block is a
//! header of four words, then the words of `x`, `y` and `step`, each word in
//! the machine's byte order.
use crate::binary32::from_f32_value;
use crate::primitives::{align_up, Coordinates, ScaledDimensions};
use crate::words::nat_of;
use vstd::prelude::*;

verus! {

/// Byte `k` (0 being the least significant) of the word `w`.
pub open spec fn byte_of(w: u32, k: nat) -> u8 {
    ((w as nat / vstd::arithmetic::power2::pow2(8 * k)) % 0x100) as u8
}

/// The bytes of `s`, four per word, least significant byte first.
pub open spec fn le_bytes(s: Seq<u32>) -> Seq<u8> {
    Seq::new(4 * s.len(), |i: int| byte_of(s[i / 4], (i % 4) as nat))
}

/// The bytes of `s`, four per word, most significant byte first.
pub open spec fn be_bytes(s: Seq<u32>) -> Seq<u8> {
    Seq::new(4 * s.len(), |i: int| byte_of(s[i / 4], (3 - i % 4) as nat))
}

/// Relies on `bytemuck::cast_slice` from `u32` to `u8`: a view of the same
/// memory, four bytes per word in the machine's byte order; `u8` needs no
/// alignment and divides the size of `u32`, so the cast cannot fail.
#[verifier::external_body]
pub(crate) fn words_as_bytes(words: &[u32]) -> (r: &[u8])
    ensures
        r@ == le_bytes(words@) || r@ == be_bytes(words@),
{
    bytemuck::cast_slice(words)
}

/// Size in bytes of the parameter block for numbers of `word_count` words.
pub fn size_hint(word_count: usize) -> (r: u32)
    requires
        word_count * 12 + 16 <= u32::MAX,
    ensures
        r == word_count * 12 + 16,
{
    word_count as u32 * 12 + 16
}

/// What the compute kernel is given for one frame.
#[derive(Debug, Clone, Copy)]
pub struct ComputeParams<'c> {
    pub depth_limit: u32,
    pub reset: bool,
    pub size: ScaledDimensions,
    pub coords: &'c Coordinates,
}

/// The words of the parameter block: the depth limit, the reset flag, the
/// width aligned to 64 pixels, the height, then `x`, `y` and `step`.
pub open spec fn params_words(p: ComputeParams) -> Seq<u32> {
    seq![
        p.depth_limit,
        if p.reset { 1u32 } else { 0u32 },
        align_up(p.size.width as int, 64) as u32,
        p.size.height,
    ] + p.coords.x@ + p.coords.y@ + p.coords.step@
}

impl<'c> ComputeParams<'c> {
    /// Parameters that ask the kernel to start over.
    pub fn new(size: ScaledDimensions, coords: &'c Coordinates, depth_limit: u32) -> (r: Self)
        ensures
            r.size == size,
            r.coords == coords,
            r.depth_limit == depth_limit,
            r.reset,
    {
        Self { size, coords, depth_limit, reset: true }
    }

    /// The parameter block as bytes.
    pub fn encode(&self) -> (r: Vec<u8>)
        requires
            self.coords.wf(),
            self.coords.step@.len() * 12 + 16 <= u32::MAX,
            align_up(self.size.width as int, 64) <= u32::MAX,
        ensures
            r@.len() == self.coords.step@.len() * 12 + 16,
            r@ == le_bytes(params_words(*self)) || r@ == be_bytes(params_words(*self)),
    {
        let n = self.coords.size();
        let mut words: Vec<u32> = Vec::with_capacity(size_hint(n) as usize / 4);
        words.push(self.depth_limit);
        words.push(if self.reset { 1 } else { 0 });
        words.push(self.size.aligned_width(64));
        words.push(self.size.height);
        append_words(&mut words, self.coords.x.words());
        append_words(&mut words, self.coords.y.words());
        append_words(&mut words, self.coords.step.words());
        assert(words@ =~= params_words(*self));
        vstd::slice::slice_to_vec(words_as_bytes(words.as_slice()))
    }
}

/// The depth limit and reset flag that start the parameter block, for a
/// frame that goes on from the last one (`reset` false) or starts over: the
/// limit's four bytes, then `[0, 0, 0, 1]` or `[0, 0, 0, 0]`.
pub fn iterate_header(depth_limit: u32, reset: bool) -> (r: Vec<u8>)
    ensures
        r@ == le_bytes(seq![depth_limit]) + seq![0u8, 0u8, 0u8, if reset { 1u8 } else { 0u8 }] || r@
            == be_bytes(seq![depth_limit]) + seq![0u8, 0u8, 0u8, if reset { 1u8 } else { 0u8 }],
{
    let limit = vec![depth_limit];
    assert(limit@ =~= seq![depth_limit]);
    let mut r = vstd::slice::slice_to_vec(words_as_bytes(limit.as_slice()));
    r.push(0);
    r.push(0);
    r.push(0);
    r.push(if reset { 1 } else { 0 });
    r
}

/// Binary32 pattern of -0.6827560061104002, the x coordinate of the top left
/// corner of the largest 16:10 rectangle inscribed in the main cardioid.
pub const CALIBRATION_X: u32 = 0xbf2e_c919;

/// Binary32 pattern of -0.2914862451646308, the y coordinate of that corner.
pub const CALIBRATION_Y: u32 = 0xbe95_3daf;

/// Coordinates inside the main cardioid, where every point reaches the depth
/// limit, at the width `size`: a workload for timing the kernel.
pub fn calibration_coords(size: usize, precision: usize) -> (r: Coordinates)
    requires
        1 <= size <= isize::MAX,
        precision / 32 < size,
    ensures
        r.wf(),
        r.step@.len() == size,
        nat_of(r.x@) == from_f32_value(CALIBRATION_X, size as nat),
        nat_of(r.y@) == from_f32_value(CALIBRATION_Y, size as nat),
        nat_of(r.step@) == vstd::arithmetic::power2::pow2(precision as nat),
        r.precision == precision,
{
    Coordinates::new_magnified(CALIBRATION_X, CALIBRATION_Y, size, precision)
}

/// What the fragment shader is given.
#[derive(Debug, Clone, Copy)]
pub struct FragmentParams {
    pub size: ScaledDimensions,
    pub depth: u32,
}

/// What the settings overlay shows of the frame being computed.
#[derive(Debug, Clone, Copy, Default)]
pub struct Info {
    pub depth: u32,
}

/// Appends the words of `b` to `a`.
fn append_words(a: &mut Vec<u32>, b: &Vec<u32>)
    requires
        old(a)@.len() + b@.len() <= usize::MAX,
    ensures
        final(a)@ == old(a)@ + b@,
{
    let ghost a0 = a@;
    let mut i: usize = 0;
    while i < b.len()
        invariant
            i <= b@.len(),
            a0.len() + b@.len() <= usize::MAX,
            a@ == a0 + b@.take(i as int),
        decreases b@.len() - i,
    {
        a.push(b[i]);
        assert(b@.take(i + 1) =~= b@.take(i as int).push(b@[i as int]));
        i += 1;
    }
    assert(b@.take(b@.len() as int) =~= b@);
}

} // verus!
