use vstd::prelude::*;

use crate::energy_function::EnergyFunction;
use crate::seam::{find_horizontal_seam, find_vertical_seam, hgrid, seam_col, vgrid, EnergyMatrix};

verus! {

/// Number of color channels per pixel (interleaved RGB).
pub const CHANNELS: usize = 3;

#[verifier::external_type_specification]
#[verifier::external_body]
pub struct ExDynamicImage(image::DynamicImage);

/// Relies on image::DynamicImage::into_rgb8 — it yields an 8-bit RGB
/// buffer with the image's own dimensions — and on the ImageBuffer
/// invariant that the container holds at least width * height pixels of
/// three bytes each, interleaved and row-major, the pixel data packed
/// into the leading bytes.
#[verifier::external_body]
fn decode_rgb8_parts(img: image::DynamicImage) -> (r: (u32, u32, Vec<u8>))
    ensures
        r.2@.len() >= 3 * r.0 * r.1,
{
    let buf = img.into_rgb8();
    let (w, h) = (buf.width(), buf.height());
    (w, h, buf.into_raw())
}

/// Mathematical view of an image: its dimensions and the flat byte buffer,
/// row-major and channel-interleaved.
#[verifier::ext_equal]
pub ghost struct ImageV {
    pub w: int,
    pub h: int,
    pub data: Seq<u8>,
}

impl ImageV {
    /// The buffer holds exactly `w * h` pixels of three bytes each.
    pub open spec fn wf(self) -> bool {
        &&& 0 <= self.w
        &&& 0 <= self.h
        &&& self.data.len() == 3 * self.w * self.h
    }

    /// Channel `c` of the pixel in column `x` of row `y`.
    pub open spec fn pix(self, x: int, y: int, c: int) -> u8 {
        self.data[3 * (y * self.w + x) + c]
    }
}

/// Column of the minimal vertical seam in each row of the image.
pub open spec fn vseam_cols<F: EnergyFunction>(f: F, iv: ImageV) -> Seq<int> {
    Seq::new(iv.h as nat, |y: int| seam_col(vgrid(f, iv), y))
}

/// Flat position in the old buffer that position `p` of the carved buffer
/// comes from, when column `s[y]` is removed from each row `y` of a
/// `w`-wide image.
pub open spec fn vseam_src(w: int, s: Seq<int>, p: int) -> int {
    let q = p / 3;
    let k = p % 3;
    let y = q / (w - 1);
    let cn = q % (w - 1);
    let c = if cn < s[y] {
        cn
    } else {
        cn + 1
    };
    3 * (y * w + c) + k
}

/// Remove one pixel per row from a packed row-major buffer: row `y` loses
/// column `s[y]`, the remaining columns keep their order, and the rows are
/// repacked back to back with the narrower stride.
pub open spec fn remove_vseam(iv: ImageV, s: Seq<int>) -> ImageV {
    ImageV {
        w: iv.w - 1,
        h: iv.h,
        data: Seq::new((3 * (iv.w - 1) * iv.h) as nat, |p: int| iv.data[vseam_src(iv.w, s, p)]),
    }
}

/// One carving step: remove the minimal vertical seam of the image.
pub open spec fn carve_one<F: EnergyFunction>(f: F, iv: ImageV) -> ImageV {
    remove_vseam(iv, vseam_cols(f, iv))
}

/// The image after carving vertical seams one at a time until the width
/// reaches `target`.
pub open spec fn resized<F: EnergyFunction>(f: F, iv: ImageV, target: int) -> ImageV
    decreases iv.w - target,
{
    if target < iv.w {
        resized(f, carve_one(f, iv), target)
    } else {
        iv
    }
}

/// Row of the minimal horizontal seam in each column of the image.
pub open spec fn hseam_rows<F: EnergyFunction>(f: F, iv: ImageV) -> Seq<int> {
    Seq::new(iv.w as nat, |x: int| seam_col(hgrid(f, iv), x))
}

/// Flat position in the old buffer that position `p` of the carved buffer
/// comes from, when row `s[x]` is removed from each column `x` of a
/// `w`-wide image.
pub open spec fn hseam_src(w: int, s: Seq<int>, p: int) -> int {
    let q = p / 3;
    let k = p % 3;
    let y = q / w;
    let x = q % w;
    let yy = if y < s[x] {
        y
    } else {
        y + 1
    };
    3 * (yy * w + x) + k
}

/// Remove one pixel per column from a packed row-major buffer: column
/// `x` loses row `s[x]`, the remaining rows keep their order, and the
/// stride is unchanged while the buffer loses one row's worth of bytes.
pub open spec fn remove_hseam(iv: ImageV, s: Seq<int>) -> ImageV {
    ImageV {
        w: iv.w,
        h: iv.h - 1,
        data: Seq::new((3 * iv.w * (iv.h - 1)) as nat, |p: int| iv.data[hseam_src(iv.w, s, p)]),
    }
}

/// One carving step of the transposed direction: remove the minimal
/// horizontal seam of the image.
pub open spec fn carve_one_h<F: EnergyFunction>(f: F, iv: ImageV) -> ImageV {
    remove_hseam(iv, hseam_rows(f, iv))
}

/// The image after carving horizontal seams one at a time until the
/// height reaches `target`.
pub open spec fn resized_vertical<F: EnergyFunction>(f: F, iv: ImageV, target: int) -> ImageV
    decreases iv.h - target,
{
    if target < iv.h {
        resized_vertical(f, carve_one_h(f, iv), target)
    } else {
        iv
    }
}

/// Shrinking in stages gives the same image as shrinking at once:
/// resizing to `mid` and then to `target` equals resizing straight to
/// `target`, because every step removes the minimal seam of the image it
/// sees and neither call depends on anything else.
pub proof fn lemma_resize_composes<F: EnergyFunction>(f: F, iv: ImageV, mid: int, target: int)
    requires
        target <= mid <= iv.w,
    ensures
        resized(f, resized(f, iv, mid), target) == resized(f, iv, target),
    decreases iv.w - mid,
{
    if mid < iv.w {
        lemma_resize_composes(f, carve_one(f, iv), mid, target);
    }
}

/// Least element of a non-empty sequence.
pub open spec fn seq_min(s: Seq<int>) -> int
    decreases s.len(),
{
    if s.len() <= 1 {
        s[0]
    } else {
        let m = seq_min(s.drop_last());
        if s.last() < m {
            s.last()
        } else {
            m
        }
    }
}

/// Greatest element of a non-empty sequence.
pub open spec fn seq_max(s: Seq<int>) -> int
    decreases s.len(),
{
    if s.len() <= 1 {
        s[0]
    } else {
        let m = seq_max(s.drop_last());
        if s.last() > m {
            s.last()
        } else {
            m
        }
    }
}

/// Every element lies between the least and the greatest.
pub proof fn lemma_seq_min_max(s: Seq<int>, i: int)
    requires
        0 <= i < s.len(),
    ensures
        seq_min(s) <= s[i] <= seq_max(s),
    decreases s.len(),
{
    if s.len() > 1 && i < s.len() - 1 {
        lemma_seq_min_max(s.drop_last(), i);
    }
}

/// The energies of all pixels of the image, row-major.
pub open spec fn energy_row_major<F: EnergyFunction>(f: F, iv: ImageV) -> Seq<int> {
    Seq::new((iv.w * iv.h) as nat, |i: int| f.spec_energy(iv, i % iv.w, i / iv.w) as int)
}

/// Linear mapping of one energy onto the 0 ..= 255 gray range: the least
/// energy maps to 0, the greatest to 255. A flat energy field, where the
/// two coincide, maps to 0.
pub open spec fn gray_level(e: int, mn: int, mx: int) -> int {
    if mx <= mn {
        0
    } else {
        255 * (e - mn) / (mx - mn)
    }
}

/// A resizable image: a raw interleaved RGB buffer plus its dimensions.
pub struct Image {
    width: u32,
    height: u32,
    buffer: Vec<u8>,
}

impl View for Image {
    type V = ImageV;

    closed spec fn view(&self) -> ImageV {
        ImageV { w: self.width as int, h: self.height as int, data: self.buffer@ }
    }
}

/// A cell (x, y) of a w-by-h grid has a row-major index below `w * h`.
pub proof fn lemma_grid_index(x: int, y: int, w: int, h: int)
    by (nonlinear_arith)
    requires
        0 <= x < w,
        0 <= y < h,
    ensures
        0 <= y * w + x < w * h,
{
}

/// The three buffer positions of pixel (x, y) lie below `3 * w * h`.
pub proof fn lemma_pix_index(x: int, y: int, w: int, h: int)
    by (nonlinear_arith)
    requires
        0 <= x < w,
        0 <= y < h,
    ensures
        0 <= y * w,
        0 <= y * w + x,
        3 * (y * w + x) + 2 < 3 * w * h,
{
}

/// Three bytes per pixel of a 32-bit-by-32-bit extent stay far below the
/// 128-bit range.
proof fn lemma_dims_fit(w: int, h: int)
    by (nonlinear_arith)
    requires
        0 <= w <= 0xffff_ffff,
        0 <= h <= 0xffff_ffff,
    ensures
        0 <= 3 * w * h < 0x1_0000_0000_0000_0000_0000,
{
}

/// A buffer has at least as many bytes as pixels.
proof fn lemma_pixels_fit(w: int, h: int)
    by (nonlinear_arith)
    requires
        0 <= w,
        0 <= h,
    ensures
        0 <= w * h <= 3 * w * h,
{
}

/// Index arithmetic of one compaction step: where the copied pixel sits
/// in the narrow and in the wide layout, and that the source never lies
/// before the destination.
proof fn lemma_carve_bounds(w: int, h: int, y: int, cn: int, c: int)
    by (nonlinear_arith)
    requires
        2 <= w,
        1 <= h,
        0 <= y < h,
        0 <= cn < w - 1,
        cn <= c < w,
    ensures
        0 <= y * (w - 1) + cn,
        0 <= y * w + c,
        3 * (y * (w - 1) + cn) + 2 < 3 * (w - 1) * h,
        3 * (y * w + c) + 2 < 3 * w * h,
        3 * (y * (w - 1) + cn) <= 3 * (y * w + c),
        (y + 1) * (w - 1) == y * (w - 1) + (w - 1),
{
}

/// Size facts of the carved buffer: it is shorter than the old one, and
/// the two ways of grouping its length agree.
proof fn lemma_carve_sizes(w: int, h: int)
    by (nonlinear_arith)
    requires
        2 <= w,
        1 <= h,
    ensures
        0 <= (w - 1) * h <= 3 * (w - 1) * h <= 3 * w * h,
        3 * ((w - 1) * h) == 3 * (w - 1) * h,
        3 * (h * (w - 1)) == 3 * (w - 1) * h,
{
}

/// Index arithmetic of one transposed compaction step: where the copied
/// pixel sits in the shorter and in the taller layout, and that the
/// source never lies before the destination.
proof fn lemma_hcarve_bounds(w: int, h: int, y: int, x: int, yy: int)
    by (nonlinear_arith)
    requires
        1 <= w,
        2 <= h,
        0 <= y < h - 1,
        0 <= x < w,
        y <= yy < h,
    ensures
        0 <= y * w + x,
        0 <= yy * w + x,
        3 * (y * w + x) + 2 < 3 * w * (h - 1),
        3 * (yy * w + x) + 2 < 3 * w * h,
        3 * (y * w + x) <= 3 * (yy * w + x),
        (y + 1) * w == y * w + w,
{
}

/// Size facts of the transposed carve: the shorter buffer fits in the
/// old one, and the two ways of grouping its length agree.
proof fn lemma_hcarve_sizes(w: int, h: int)
    by (nonlinear_arith)
    requires
        1 <= w,
        2 <= h,
    ensures
        0 <= w * (h - 1) <= 3 * w * (h - 1) <= 3 * w * h,
        3 * (w * (h - 1)) == 3 * w * (h - 1),
        3 * ((h - 1) * w) == 3 * w * (h - 1),
{
}

/// A fixed width times a smaller height covers fewer pixels.
proof fn lemma_area_le(w: int, h1: int, h2: int)
    by (nonlinear_arith)
    requires
        0 <= w,
        0 <= h1 <= h2,
    ensures
        w * h1 <= w * h2,
{
}

impl Image {
    /// The buffer length matches the dimensions.
    pub open spec fn wf(&self) -> bool {
        self@.wf()
    }

    /// Create a new `Image` wrapper from an existing image, converted to
    /// interleaved 8-bit RGB. Excess container bytes beyond the pixel
    /// data are dropped, so the invariant holds exactly.
    pub fn from_dynamic_image(img: image::DynamicImage) -> (r: Image)
        ensures
            r.wf(),
    {
        let (w, h, mut buffer) = decode_rgb8_parts(img);
        proof {
            lemma_dims_fit(w as int, h as int);
        }
        let _len = buffer.len();
        let expected = (3u128 * (w as u128) * (h as u128)) as usize;
        buffer.truncate(expected);
        Image { width: w, height: h, buffer }
    }

    /// Wrap a raw interleaved RGB byte buffer with its dimensions.
    /// Succeeds exactly when the buffer length matches `3 * width * height`.
    pub fn from_raw(width: u32, height: u32, buffer: Vec<u8>) -> (r: Option<Image>)
        ensures
            match r {
                Some(img) => {
                    &&& img.wf()
                    &&& img@.w == width
                    &&& img@.h == height
                    &&& img@.data == buffer@
                },
                None => buffer@.len() != 3 * width * height,
            },
    {
        proof {
            lemma_dims_fit(width as int, height as int);
        }
        let expected: u128 = 3u128 * (width as u128) * (height as u128);
        if (buffer.len() as u128) == expected {
            Some(Image { width, height, buffer })
        } else {
            None
        }
    }

    /// Give the raw buffer back.
    pub fn into_raw(self) -> (r: Vec<u8>)
        ensures
            r@ == self@.data,
    {
        self.buffer
    }

    /// The width of this image.
    pub fn width(&self) -> (w: u32)
        ensures
            w == self@.w,
    {
        self.width
    }

    /// The height of this image.
    pub fn height(&self) -> (h: u32)
        ensures
            h == self@.h,
    {
        self.height
    }

    /// Retrieve the color components of the given pixel.
    pub fn get_pixel(&self, x: u32, y: u32) -> (p: [u8; 3])
        requires
            self.wf(),
            x < self@.w,
            y < self@.h,
        ensures
            p[0] == self@.pix(x as int, y as int, 0),
            p[1] == self@.pix(x as int, y as int, 1),
            p[2] == self@.pix(x as int, y as int, 2),
    {
        proof {
            lemma_pix_index(x as int, y as int, self@.w, self@.h);
        }
        let _len = self.buffer.len();
        let wu = self.width as usize;
        let idx = CHANNELS * ((y as usize) * wu + (x as usize));
        [self.buffer[idx], self.buffer[idx + 1], self.buffer[idx + 2]]
    }

    /// Remove the minimal vertical seam from this image in place: each row
    /// loses the seam's pixel for that row, and every remaining byte moves
    /// forward onto its new position — the source of a copy never lies
    /// before its destination, so no byte is overwritten before it is
    /// read. The buffer is then truncated to the narrower extent.
    #[verifier::loop_isolation(false)]
    #[verifier::rlimit(60)]
    fn carve_vertical_seam<F: EnergyFunction>(
        &mut self,
        energy_function: F,
        energy_matrix: &mut EnergyMatrix,
    )
        requires
            old(self).wf(),
            2 <= old(self)@.w,
            1 <= old(self)@.h,
            old(self)@.w * old(self)@.h <= old(energy_matrix).spec_len(),
        ensures
            final(self).wf(),
            final(self)@ == carve_one(energy_function, old(self)@),
            final(energy_matrix).spec_len() == old(energy_matrix).spec_len(),
    {
        let ghost iv0 = self@;
        let ghost cols = vseam_cols(energy_function, iv0);

        let ghost data0 = iv0.data;
        let ghost target = remove_vseam(iv0, cols);

        let seam = find_vertical_seam(self, energy_function, energy_matrix);

        let _blen = self.buffer.len();
        let wu = self.width as usize;
        let hu = self.height as usize;
        let nw = wu - 1;

        let mut y: usize = 0;
        while y < hu
            invariant
                y <= hu,
                self.width == iv0.w,
                self.height == iv0.h,
                self.buffer@.len() == data0.len(),
                forall|p: int|
                    0 <= p < 3 * (y * nw) ==> #[trigger] self.buffer@[p] == target.data[p],
                forall|p: int|
                    3 * (y * nw) <= p < data0.len() ==> #[trigger] self.buffer@[p] == data0[p],
            decreases hu - y,
        {
            let sy = seam[hu - 1 - y];
            proof {
                assert(sy == cols[y as int]);
            }
            let mut cn: usize = 0;
            while cn < nw
                invariant
                    cn <= nw,
                    self.width == iv0.w,
                    self.height == iv0.h,
                    self.buffer@.len() == data0.len(),
                    forall|p: int|
                        0 <= p < 3 * (y * nw + cn) ==> #[trigger] self.buffer@[p]
                            == target.data[p],
                    forall|p: int|
                        3 * (y * nw + cn) <= p < data0.len() ==> #[trigger] self.buffer@[p]
                            == data0[p],
                decreases nw - cn,
            {
                let c = if cn < sy {
                    cn
                } else {
                    cn + 1
                };
                proof {
                    lemma_carve_bounds(iv0.w, iv0.h, y as int, cn as int, c as int);
                }
                let src = CHANNELS * (y * wu + c);
                let dst = CHANNELS * (y * nw + cn);
                let b0 = self.buffer[src];
                let b1 = self.buffer[src + 1];
                let b2 = self.buffer[src + 2];
                proof {
                    assert(b0 == data0[src as int]);
                    assert(b1 == data0[src as int + 1]);
                    assert(b2 == data0[src as int + 2]);
                }
                let ghost bufa = self.buffer@;
                self.buffer[dst] = b0;
                self.buffer[dst + 1] = b1;
                self.buffer[dst + 2] = b2;
                proof {
                    let t: int = y * (iv0.w - 1) + cn;
                    vstd::arithmetic::div_mod::lemma_fundamental_div_mod_converse(3 * t, 3, t, 0);
                    vstd::arithmetic::div_mod::lemma_fundamental_div_mod_converse(
                        3 * t + 1,
                        3,
                        t,
                        1,
                    );
                    vstd::arithmetic::div_mod::lemma_fundamental_div_mod_converse(
                        3 * t + 2,
                        3,
                        t,
                        2,
                    );
                    vstd::arithmetic::div_mod::lemma_fundamental_div_mod_converse(
                        t,
                        iv0.w - 1,
                        y as int,
                        cn as int,
                    );
                    assert(vseam_src(iv0.w, cols, 3 * t) == src);
                    assert(vseam_src(iv0.w, cols, 3 * t + 1) == src + 1);
                    assert(vseam_src(iv0.w, cols, 3 * t + 2) == src + 2);
                    assert(self.buffer@[dst as int] == target.data[dst as int]);
                    assert(self.buffer@[dst as int + 1] == target.data[dst as int + 1]);
                    assert(self.buffer@[dst as int + 2] == target.data[dst as int + 2]);
                    assert forall|p: int| 0 <= p < 3 * (y * nw + cn + 1) implies #[trigger] self
                        .buffer@[p] == target.data[p] by {
                        if p < 3 * t {
                            assert(bufa[p] == target.data[p]);
                        }
                    }
                    assert forall|p: int| 3 * (y * nw + cn + 1) <= p < data0.len() implies #[trigger] self
                        .buffer@[p] == data0[p] by {
                        assert(bufa[p] == data0[p]);
                    }
                }
                cn += 1;
            }
            proof {
                lemma_carve_bounds(iv0.w, iv0.h, y as int, 0, 0);
            }
            y += 1;
        }

        proof {
            lemma_carve_sizes(iv0.w, iv0.h);
        }
        let newlen = CHANNELS * (nw * hu);
        self.buffer.truncate(newlen);
        self.width = self.width - 1;
        proof {
            assert(self.buffer@ =~= target.data);
            assert(self@ =~= target);
        }
    }

    /// Dump the pixel energy values of this image to grayscale bytes,
    /// one per pixel, row-major: each energy is scaled linearly so that
    /// the least maps to 0 and the greatest to 255; a uniform energy
    /// field comes out all zeros instead of dividing by zero.
    #[verifier::loop_isolation(false)]
    #[verifier::rlimit(60)]
    pub fn energy<F: EnergyFunction>(&self, energy_function: F) -> (out: Vec<u8>)
        requires
            self.wf(),
            1 <= self@.w,
            1 <= self@.h,
        ensures
            out@.len() == self@.w * self@.h,
            forall|i: int| 0 <= i < out@.len() ==> #[trigger] out@[i] == gray_level(
                energy_row_major(energy_function, self@)[i],
                seq_min(energy_row_major(energy_function, self@)),
                seq_max(energy_row_major(energy_function, self@)),
            ),
    {
        let ghost iv = self@;
        let ghost erm = energy_row_major(energy_function, iv);
        let ghost n = iv.w;
        let ghost m = iv.h;

        let _blen = self.buffer.len();
        proof {
            lemma_pixels_fit(n, m);
        }
        let wu = self.width as usize;
        let hu = self.height as usize;
        let total = wu * hu;

        proof {
            lemma_grid_index(0, 0, n, m);
            vstd::arithmetic::div_mod::lemma_fundamental_div_mod_converse(0, n, 0, 0);
        }
        let e00 = energy_function.energy_at(self, 0, 0);
        let mut mn = e00;
        let mut mx = e00;
        let mut es: Vec<u32> = Vec::new();

        let mut y: usize = 0;
        while y < hu
            invariant
                y <= hu,
                es@.len() == y * n,
                forall|i: int| 0 <= i < es@.len() ==> #[trigger] es@[i] == erm[i],
                es@.len() == 0 ==> mn == erm[0] && mx == erm[0],
                es@.len() >= 1 ==> mn == seq_min(erm.take(es@.len() as int)) && mx == seq_max(
                    erm.take(es@.len() as int),
                ),
            decreases hu - y,
        {
            let mut x: usize = 0;
            while x < wu
                invariant
                    x <= wu,
                    es@.len() == y * n + x,
                    forall|i: int| 0 <= i < es@.len() ==> #[trigger] es@[i] == erm[i],
                    es@.len() == 0 ==> mn == erm[0] && mx == erm[0],
                    es@.len() >= 1 ==> mn == seq_min(erm.take(es@.len() as int)) && mx == seq_max(
                        erm.take(es@.len() as int),
                    ),
                decreases wu - x,
            {
                proof {
                    lemma_grid_index(x as int, y as int, n, m);
                    vstd::arithmetic::div_mod::lemma_fundamental_div_mod_converse(
                        y * n + x,
                        n,
                        y as int,
                        x as int,
                    );
                }
                let e = energy_function.energy_at(self, x as u32, y as u32);
                let ghost len0 = es@.len() as int;
                es.push(e);
                if e < mn {
                    mn = e;
                }
                if e > mx {
                    mx = e;
                }
                proof {
                    assert(erm.take(len0 + 1).drop_last() =~= erm.take(len0));
                    assert(erm.take(len0 + 1).last() == erm[len0]);
                }
                x += 1;
            }
            proof {
                vstd::arithmetic::mul::lemma_mul_is_distributive_add_other_way(n, y as int, 1);
            }
            y += 1;
        }

        proof {
            vstd::arithmetic::mul::lemma_mul_is_commutative(m, n);
            assert(es@.len() == total);
            assert(erm.take(erm.len() as int) =~= erm);
        }

        let mut out: Vec<u8> = Vec::new();
        let mut j: usize = 0;
        while j < total
            invariant
                j <= total,
                out@.len() == j,
                forall|i: int| 0 <= i < j ==> #[trigger] out@[i] == gray_level(
                    erm[i],
                    seq_min(erm),
                    seq_max(erm),
                ),
            decreases total - j,
        {
            proof {
                lemma_seq_min_max(erm, j as int);
            }
            let e = es[j];
            if mx == mn {
                out.push(0);
            } else {
                let d = (mx - mn) as u64;
                let num = 255u64 * ((e - mn) as u64);
                proof {
                    vstd::arithmetic::div_mod::lemma_fundamental_div_mod_converse(
                        255 * (d as int),
                        d as int,
                        255,
                        0,
                    );
                    vstd::arithmetic::div_mod::lemma_div_is_ordered(
                        num as int,
                        255 * (d as int),
                        d as int,
                    );
                }
                let lvl = num / d;
                out.push(lvl as u8);
            }
            j += 1;
        }
        out
    }

    /// Resize this image horizontally based on an energy function:
    /// repeatedly find and remove the minimal vertical seam until the
    /// width is exactly `new_width`, then release the freed bytes. The
    /// result is determined by the starting image and the energy function
    /// alone.
    #[verifier::loop_isolation(false)]
    pub fn resize_horizontal<F: EnergyFunction + Copy>(
        &mut self,
        new_width: u32,
        energy_function: F,
    )
        requires
            old(self).wf(),
            1 <= new_width <= old(self)@.w,
            1 <= old(self)@.h,
        ensures
            final(self).wf(),
            final(self)@.w == new_width,
            final(self)@.h == old(self)@.h,
            final(self)@ == resized(energy_function, old(self)@, new_width as int),
    {
        let ghost iv0 = self@;
        let _blen = self.buffer.len();
        proof {
            lemma_pixels_fit(iv0.w, iv0.h);
        }
        let mut energy_matrix = EnergyMatrix::new(self);
        while self.width > new_width
            invariant
                self.wf(),
                self@.h == iv0.h,
                new_width <= self@.w <= iv0.w,
                energy_matrix.spec_len() == iv0.w * iv0.h,
                self@.w * self@.h <= energy_matrix.spec_len(),
                resized(energy_function, self@, new_width as int) == resized(
                    energy_function,
                    iv0,
                    new_width as int,
                ),
            decreases self@.w,
        {
            self.carve_vertical_seam(energy_function, &mut energy_matrix);
            proof {
                vstd::arithmetic::mul::lemma_mul_inequality(self@.w, iv0.w, iv0.h);
            }
        }
    }

    /// Remove the minimal horizontal seam from this image in place: each
    /// column loses the seam's pixel for that column, every remaining
    /// byte moves forward onto its new position — the source of a copy
    /// never lies before the destination — and the buffer is truncated
    /// to the shorter extent.
    #[verifier::loop_isolation(false)]
    #[verifier::rlimit(60)]
    fn carve_horizontal_seam<F: EnergyFunction>(
        &mut self,
        energy_function: F,
        energy_matrix: &mut EnergyMatrix,
    )
        requires
            old(self).wf(),
            1 <= old(self)@.w,
            2 <= old(self)@.h,
            old(self)@.w * old(self)@.h <= old(energy_matrix).spec_len(),
        ensures
            final(self).wf(),
            final(self)@ == carve_one_h(energy_function, old(self)@),
            final(energy_matrix).spec_len() == old(energy_matrix).spec_len(),
    {
        let ghost iv0 = self@;
        let ghost rows = hseam_rows(energy_function, iv0);
        let ghost data0 = iv0.data;
        let ghost target = remove_hseam(iv0, rows);

        let seam = find_horizontal_seam(self, energy_function, energy_matrix);

        let _blen = self.buffer.len();
        let wu = self.width as usize;
        let hu = self.height as usize;
        let nh = hu - 1;

        let mut y: usize = 0;
        while y < nh
            invariant
                y <= nh,
                self.width == iv0.w,
                self.height == iv0.h,
                self.buffer@.len() == data0.len(),
                forall|p: int|
                    0 <= p < 3 * (y * wu) ==> #[trigger] self.buffer@[p] == target.data[p],
                forall|p: int|
                    3 * (y * wu) <= p < data0.len() ==> #[trigger] self.buffer@[p] == data0[p],
            decreases nh - y,
        {
            let mut x: usize = 0;
            while x < wu
                invariant
                    x <= wu,
                    self.width == iv0.w,
                    self.height == iv0.h,
                    self.buffer@.len() == data0.len(),
                    forall|p: int|
                        0 <= p < 3 * (y * wu + x) ==> #[trigger] self.buffer@[p]
                            == target.data[p],
                    forall|p: int|
                        3 * (y * wu + x) <= p < data0.len() ==> #[trigger] self.buffer@[p]
                            == data0[p],
                decreases wu - x,
            {
                let sx = seam[wu - 1 - x];
                proof {
                    assert(sx == rows[x as int]);
                }
                let yy = if y < sx {
                    y
                } else {
                    y + 1
                };
                proof {
                    lemma_hcarve_bounds(iv0.w, iv0.h, y as int, x as int, yy as int);
                }
                let src = CHANNELS * (yy * wu + x);
                let dst = CHANNELS * (y * wu + x);
                let b0 = self.buffer[src];
                let b1 = self.buffer[src + 1];
                let b2 = self.buffer[src + 2];
                proof {
                    assert(b0 == data0[src as int]);
                    assert(b1 == data0[src as int + 1]);
                    assert(b2 == data0[src as int + 2]);
                }
                let ghost bufa = self.buffer@;
                self.buffer[dst] = b0;
                self.buffer[dst + 1] = b1;
                self.buffer[dst + 2] = b2;
                proof {
                    let t: int = y * iv0.w + x;
                    vstd::arithmetic::div_mod::lemma_fundamental_div_mod_converse(3 * t, 3, t, 0);
                    vstd::arithmetic::div_mod::lemma_fundamental_div_mod_converse(
                        3 * t + 1,
                        3,
                        t,
                        1,
                    );
                    vstd::arithmetic::div_mod::lemma_fundamental_div_mod_converse(
                        3 * t + 2,
                        3,
                        t,
                        2,
                    );
                    vstd::arithmetic::div_mod::lemma_fundamental_div_mod_converse(
                        t,
                        iv0.w,
                        y as int,
                        x as int,
                    );
                    assert(hseam_src(iv0.w, rows, 3 * t) == src);
                    assert(hseam_src(iv0.w, rows, 3 * t + 1) == src + 1);
                    assert(hseam_src(iv0.w, rows, 3 * t + 2) == src + 2);
                    assert(self.buffer@[dst as int] == target.data[dst as int]);
                    assert(self.buffer@[dst as int + 1] == target.data[dst as int + 1]);
                    assert(self.buffer@[dst as int + 2] == target.data[dst as int + 2]);
                    assert forall|p: int| 0 <= p < 3 * (y * wu + x + 1) implies #[trigger] self
                        .buffer@[p] == target.data[p] by {
                        if p < 3 * t {
                            assert(bufa[p] == target.data[p]);
                        }
                    }
                    assert forall|p: int| 3 * (y * wu + x + 1) <= p < data0.len() implies #[trigger] self
                        .buffer@[p] == data0[p] by {
                        assert(bufa[p] == data0[p]);
                    }
                }
                x += 1;
            }
            proof {
                lemma_hcarve_bounds(iv0.w, iv0.h, y as int, 0, y as int);
            }
            y += 1;
        }

        proof {
            lemma_hcarve_sizes(iv0.w, iv0.h);
        }
        let newlen = CHANNELS * (wu * nh);
        self.buffer.truncate(newlen);
        self.height = self.height - 1;
        proof {
            assert(self.buffer@ =~= target.data);
            assert(self@ =~= target);
        }
    }

    /// Resize this image vertically based on an energy function:
    /// repeatedly find and remove the minimal horizontal seam until the
    /// height is exactly `new_height`, then release the freed bytes. The
    /// result is determined by the starting image and the energy
    /// function alone.
    #[verifier::loop_isolation(false)]
    pub fn resize_vertical<F: EnergyFunction + Copy>(
        &mut self,
        new_height: u32,
        energy_function: F,
    )
        requires
            old(self).wf(),
            1 <= new_height <= old(self)@.h,
            1 <= old(self)@.w,
        ensures
            final(self).wf(),
            final(self)@.w == old(self)@.w,
            final(self)@.h == new_height,
            final(self)@ == resized_vertical(energy_function, old(self)@, new_height as int),
    {
        let ghost iv0 = self@;
        let _blen = self.buffer.len();
        proof {
            lemma_pixels_fit(iv0.w, iv0.h);
        }
        let mut energy_matrix = EnergyMatrix::new(self);
        while self.height > new_height
            invariant
                self.wf(),
                self@.w == iv0.w,
                new_height <= self@.h <= iv0.h,
                energy_matrix.spec_len() == iv0.w * iv0.h,
                self@.w * self@.h <= energy_matrix.spec_len(),
                resized_vertical(energy_function, self@, new_height as int) == resized_vertical(
                    energy_function,
                    iv0,
                    new_height as int,
                ),
            decreases self@.h,
        {
            self.carve_horizontal_seam(energy_function, &mut energy_matrix);
            proof {
                lemma_area_le(iv0.w, self@.h, iv0.h);
            }
        }
    }
}

} // verus!
