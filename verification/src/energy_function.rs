use vstd::prelude::*;

use crate::image::{Image, ImageV};

verus! {

/// Strategy interface for pixel energy functions.
///
/// An energy function assigns every pixel of an image a non-negative score
/// approximating its visual importance. `spec_energy` is the mathematical
/// description of the score; `energy_at` computes exactly that score, so a
/// given function and image always yield one fixed energy field.
pub trait EnergyFunction: Sized {
    /// The score this function assigns to pixel (x, y) of the image.
    spec fn spec_energy(&self, iv: ImageV, x: int, y: int) -> u32;

    /// Compute the score of pixel (x, y).
    fn energy_at(&self, image: &Image, x: u32, y: u32) -> (e: u32)
        requires
            image.wf(),
            x < image@.w,
            y < image@.h,
        ensures
            e == self.spec_energy(image@, x as int, y as int),
    ;
}

/// Energy functions are used through shared references as well, so that a
/// caller can keep ownership while a resize runs; a reference scores pixels
/// exactly as the function it points to does.
impl<F: EnergyFunction> EnergyFunction for &F {
    open spec fn spec_energy(&self, iv: ImageV, x: int, y: int) -> u32 {
        (**self).spec_energy(iv, x, y)
    }

    fn energy_at(&self, image: &Image, x: u32, y: u32) -> (e: u32) {
        (**self).energy_at(image, x, y)
    }
}

/// Absolute difference of two channel values.
pub open spec fn abs_diff_spec(a: u8, b: u8) -> int {
    if a >= b {
        a - b
    } else {
        b - a
    }
}

/// Squared gradient between two channel values.
pub open spec fn grad_sq(a: u8, b: u8) -> int {
    abs_diff_spec(a, b) * abs_diff_spec(a, b)
}

/// The gradient-magnitude score of pixel (x, y): neighbor coordinates are
/// clamped to the image, and the score is the sum over the three channels of
/// the squared horizontal and squared vertical channel differences.
pub open spec fn basic_spec(iv: ImageV, x: int, y: int) -> int {
    let x1 = if x <= 0 { 0 } else { x - 1 };
    let x2 = if x + 1 < iv.w { x + 1 } else { iv.w - 1 };
    let y1 = if y <= 0 { 0 } else { y - 1 };
    let y2 = if y + 1 < iv.h { y + 1 } else { iv.h - 1 };
    grad_sq(iv.pix(x1, y, 0), iv.pix(x2, y, 0))
        + grad_sq(iv.pix(x1, y, 1), iv.pix(x2, y, 1))
        + grad_sq(iv.pix(x1, y, 2), iv.pix(x2, y, 2))
        + grad_sq(iv.pix(x, y1, 0), iv.pix(x, y2, 0))
        + grad_sq(iv.pix(x, y1, 1), iv.pix(x, y2, 1))
        + grad_sq(iv.pix(x, y1, 2), iv.pix(x, y2, 2))
}

/// Squaring is monotonic on non-negative numbers.
proof fn lemma_sq_le(a: int, b: int)
    by (nonlinear_arith)
    requires
        0 <= a <= b,
    ensures
        a * a <= b * b,
{
}

/// The gradient-magnitude score of a pixel is at most six squared maximal
/// channel differences.
pub proof fn lemma_basic_spec_bound(iv: ImageV, x: int, y: int)
    ensures
        0 <= basic_spec(iv, x, y) <= 6 * 255 * 255,
{
    let x1 = if x <= 0 { 0 } else { x - 1 };
    let x2 = if x + 1 < iv.w { x + 1 } else { iv.w - 1 };
    let y1 = if y <= 0 { 0 } else { y - 1 };
    let y2 = if y + 1 < iv.h { y + 1 } else { iv.h - 1 };
    lemma_sq_le(abs_diff_spec(iv.pix(x1, y, 0), iv.pix(x2, y, 0)), 255);
    lemma_sq_le(abs_diff_spec(iv.pix(x1, y, 1), iv.pix(x2, y, 1)), 255);
    lemma_sq_le(abs_diff_spec(iv.pix(x1, y, 2), iv.pix(x2, y, 2)), 255);
    lemma_sq_le(abs_diff_spec(iv.pix(x, y1, 0), iv.pix(x, y2, 0)), 255);
    lemma_sq_le(abs_diff_spec(iv.pix(x, y1, 1), iv.pix(x, y2, 1)), 255);
    lemma_sq_le(abs_diff_spec(iv.pix(x, y1, 2), iv.pix(x, y2, 2)), 255);
}

fn abs_diff(a: u8, b: u8) -> (r: u32)
    ensures
        r == abs_diff_spec(a, b),
{
    let res = if a > b { a - b } else { b - a };
    res as u32
}

/// Returns the energy of a pixel based on the sum of squared differences
/// between the color channels of neighboring pixels.
pub fn basic(image: &Image, x: u32, y: u32) -> (e: u32)
    requires
        image.wf(),
        x < image@.w,
        y < image@.h,
    ensures
        e == basic_spec(image@, x as int, y as int),
{
    let w = image.width();
    let h = image.height();

    let x1 = if x == 0 { 0 } else { x - 1 };
    let x2 = if x + 1 < w { x + 1 } else { w - 1 };
    let y1 = if y == 0 { 0 } else { y - 1 };
    let y2 = if y + 1 < h { y + 1 } else { h - 1 };

    let pl = image.get_pixel(x1, y);
    let pr = image.get_pixel(x2, y);
    let pu = image.get_pixel(x, y1);
    let pd = image.get_pixel(x, y2);

    let dh0 = abs_diff(pl[0], pr[0]);
    let dh1 = abs_diff(pl[1], pr[1]);
    let dh2 = abs_diff(pl[2], pr[2]);
    let dv0 = abs_diff(pu[0], pd[0]);
    let dv1 = abs_diff(pu[1], pd[1]);
    let dv2 = abs_diff(pu[2], pd[2]);

    proof {
        lemma_sq_le(dh0 as int, 255);
        lemma_sq_le(dh1 as int, 255);
        lemma_sq_le(dh2 as int, 255);
        lemma_sq_le(dv0 as int, 255);
        lemma_sq_le(dv1 as int, 255);
        lemma_sq_le(dv2 as int, 255);
    }
    dh0 * dh0 + dh1 * dh1 + dh2 * dh2 + dv0 * dv0 + dv1 * dv1 + dv2 * dv2
}

/// The default gradient-magnitude energy function, usable as a strategy value.
#[derive(Clone, Copy)]
pub struct BasicEnergy;

impl EnergyFunction for BasicEnergy {
    open spec fn spec_energy(&self, iv: ImageV, x: int, y: int) -> u32 {
        basic_spec(iv, x, y) as u32
    }

    fn energy_at(&self, image: &Image, x: u32, y: u32) -> (e: u32) {
        proof {
            lemma_basic_spec_bound(image@, x as int, y as int);
        }
        basic(image, x, y)
    }
}

/// An energy function given by an explicit table of per-pixel scores:
/// the score of (x, y) is `values[y * width + x]`, row-major; positions
/// outside the table score zero.
pub struct GridEnergy {
    pub width: u32,
    pub values: Vec<u32>,
}

/// A product of two 32-bit values plus a third fits in 64 bits.
proof fn lemma_mul_add_fits_u64(a: int, b: int, c: int)
    by (nonlinear_arith)
    requires
        0 <= a <= 0xffff_ffff,
        0 <= b <= 0xffff_ffff,
        0 <= c <= 0xffff_ffff,
    ensures
        0 <= a * b + c < 0x1_0000_0000_0000_0000,
{
}

impl EnergyFunction for GridEnergy {
    open spec fn spec_energy(&self, iv: ImageV, x: int, y: int) -> u32 {
        if 0 <= x < self.width && 0 <= y && y * self.width + x < self.values@.len() {
            self.values@[y * self.width + x]
        } else {
            0
        }
    }

    fn energy_at(&self, image: &Image, x: u32, y: u32) -> (e: u32) {
        proof {
            lemma_mul_add_fits_u64(y as int, self.width as int, x as int);
        }
        let w64 = self.width as u64;
        if (x as u64) < w64 {
            let idx = (y as u64) * w64 + (x as u64);
            if idx < (self.values.len() as u64) {
                return self.values[idx as usize];
            }
        }
        0
    }
}

} // verus!
