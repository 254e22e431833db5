//! Color reduction kernel: RGBA pixels to luminance, in 8-bit fixed point.
//!
//! The luminance weights approximate the ITU-R BT.709 coefficients 0.2126,
//! 0.7152 and 0.0722 as the integers 54, 182 and 18 at 1/255 precision; the
//! weighted sum is widened through 16 bits to avoid overflow, shifted down
//! by 8, and narrowed back to 8 bits.

use vstd::prelude::*;

verus! {

/// Fixed-point luminance of one pixel's color channels:
/// `(54 R + 182 G + 18 B) / 256`.
pub open spec fn luminance_of(r: u8, g: u8, b: u8) -> u8 {
    (((54 * (r as int) + 182 * (g as int) + 18 * (b as int)) / 256) as u8)
}

/// The output pixel `o` is the luminance of the source pixel `p`, copied
/// across all three of its channels, alpha dropped.
pub open spec fn is_gray_of(o: [u8; 3], p: [u8; 4]) -> bool {
    let l = luminance_of(p[0], p[1], p[2]);
    o[0] == l && o[1] == l && o[2] == l
}

/// What both luminance kernels ensure: order and count of the pixels are
/// preserved, and each output pixel carries its source pixel's luminance.
pub open spec fn grayscale_post(pixels: Seq<[u8; 4]>, out: Seq<[u8; 3]>) -> bool {
    &&& out.len() == pixels.len()
    &&& forall|k: int| 0 <= k < pixels.len() ==> is_gray_of(#[trigger] out[k], pixels[k])
}

/// One pixel's weighted sum and shift, through a 16-bit intermediate.
fn luminance(r: u8, g: u8, b: u8) -> (l: u8)
    ensures
        l == luminance_of(r, g, b),
{
    let sum: u16 = 54 * (r as u16) + 182 * (g as u16) + 18 * (b as u16);
    proof {
        assert(sum >> 8 == sum / 256) by (bit_vector);
    }
    (sum >> 8) as u8
}

/// Converts RGBA (`[u8; 4]`) pixels to grayscale (`[u8; 3]`) pixels.
///
/// Full chunks of `BYTE_LANES` pixels are staged together and reduced lane
/// by lane; remainder pixels use the identical scalar formula, so every
/// output pixel equals the per-pixel formula applied independently.
pub fn rgba_to_gray_simd_u8(rgba: &[[u8; 4]]) -> (out: Vec<[u8; 3]>)
    ensures
        grayscale_post(rgba@, out@),
{
    let n: usize = rgba.len();
    let mut out: Vec<[u8; 3]> = Vec::new();
    let mut i: usize = 0;
    while n - i >= crate::BYTE_LANES
        invariant
            i <= n,
            n == rgba@.len(),
            grayscale_post(rgba@.subrange(0, i as int), out@),
        decreases n - i,
    {
        let mut lane: usize = 0;
        while lane < crate::BYTE_LANES
            invariant
                lane <= crate::BYTE_LANES,
                i + crate::BYTE_LANES <= n,
                n == rgba@.len(),
                grayscale_post(rgba@.subrange(0, i + lane), out@),
            decreases crate::BYTE_LANES - lane,
        {
            let p = rgba[i + lane];
            let l = luminance(p[0], p[1], p[2]);
            out.push([l, l, l]);
            proof {
                assert(rgba@.subrange(0, i + lane + 1) =~= rgba@.subrange(0, i + lane).push(
                    rgba@[i + lane],
                ));
            }
            lane = lane + 1;
        }
        i = i + crate::BYTE_LANES;
    }
    while i < n
        invariant
            i <= n,
            n == rgba@.len(),
            grayscale_post(rgba@.subrange(0, i as int), out@),
        decreases n - i,
    {
        let p = rgba[i];
        let l = luminance(p[0], p[1], p[2]);
        out.push([l, l, l]);
        proof {
            assert(rgba@.subrange(0, i + 1) =~= rgba@.subrange(0, i as int).push(rgba@[i as int]));
        }
        i = i + 1;
    }
    proof {
        assert(rgba@.subrange(0, n as int) =~= rgba@);
    }
    out
}

/// Scalar reference implementation: the per-pixel formula applied in one
/// linear pass.
pub fn rgba_to_gray_scalar_u8(rgba: &[[u8; 4]]) -> (out: Vec<[u8; 3]>)
    ensures
        grayscale_post(rgba@, out@),
{
    let n: usize = rgba.len();
    let mut out: Vec<[u8; 3]> = Vec::new();
    let mut i: usize = 0;
    while i < n
        invariant
            i <= n,
            n == rgba@.len(),
            grayscale_post(rgba@.subrange(0, i as int), out@),
        decreases n - i,
    {
        let p = rgba[i];
        let l = luminance(p[0], p[1], p[2]);
        out.push([l, l, l]);
        proof {
            assert(rgba@.subrange(0, i + 1) =~= rgba@.subrange(0, i as int).push(rgba@[i as int]));
        }
        i = i + 1;
    }
    proof {
        assert(rgba@.subrange(0, n as int) =~= rgba@);
    }
    out
}

/// Luminance determinism: the output is a function of the input pixels
/// alone, so any two kernel runs over the same pixels agree pixel for pixel.
pub proof fn lemma_luminance_paths_agree(pixels: Seq<[u8; 4]>, a: Seq<[u8; 3]>, b: Seq<[u8; 3]>)
    requires
        grayscale_post(pixels, a),
        grayscale_post(pixels, b),
    ensures
        a =~= b,
{
    assert forall|k: int| 0 <= k < pixels.len() implies a[k] == b[k] by {
        assert(is_gray_of(a[k], pixels[k]));
        assert(is_gray_of(b[k], pixels[k]));
        assert(a[k]@ =~= b[k]@);
    }
}

/// Groups a raw byte buffer into RGBA pixels, four bytes per pixel in order.
/// A byte count not divisible by the channel width cannot form a pixel
/// buffer and is refused.
pub fn rgba_pixels_from_bytes(bytes: &[u8]) -> (r: Option<Vec<[u8; 4]>>)
    ensures
        match r {
            Some(pixels) => {
                &&& bytes@.len() % 4 == 0
                &&& pixels@.len() == bytes@.len() / 4
                &&& forall|k: int| 0 <= k < pixels@.len() ==> {
                    &&& (#[trigger] pixels@[k])[0] == bytes@[4 * k]
                    &&& pixels@[k][1] == bytes@[4 * k + 1]
                    &&& pixels@[k][2] == bytes@[4 * k + 2]
                    &&& pixels@[k][3] == bytes@[4 * k + 3]
                }
            },
            None => bytes@.len() % 4 != 0,
        },
{
    let n: usize = bytes.len();
    if n % 4 != 0 {
        return None;
    }
    let count: usize = n / 4;
    let mut pixels: Vec<[u8; 4]> = Vec::new();
    let mut k: usize = 0;
    while k < count
        invariant
            k <= count,
            n == bytes@.len(),
            count == n / 4,
            n % 4 == 0,
            pixels@.len() == k,
            forall|j: int| 0 <= j < k ==> {
                &&& (#[trigger] pixels@[j])[0] == bytes@[4 * j]
                &&& pixels@[j][1] == bytes@[4 * j + 1]
                &&& pixels@[j][2] == bytes@[4 * j + 2]
                &&& pixels@[j][3] == bytes@[4 * j + 3]
            },
        decreases count - k,
    {
        proof {
            assert(4 * (k as int) + 3 < n) by (nonlinear_arith)
                requires
                    0 <= k < count,
                    count == n / 4,
                    n % 4 == 0,
            ;
        }
        let base: usize = 4 * k;
        let pixel: [u8; 4] = [bytes[base], bytes[base + 1], bytes[base + 2], bytes[base + 3]];
        pixels.push(pixel);
        k = k + 1;
    }
    Some(pixels)
}

} // verus!
