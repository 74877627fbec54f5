use vstd::prelude::*;

use crate::color::Color;
use crate::color::TgaError;
use crate::color::channel;
use crate::color::color_bytes;

verus! {

/// A pixel buffer: a `width` x `height` grid of `bytespp`-byte samples,
/// stored row-major as one flat byte array with the origin at the top left.
#[derive(PartialEq, Eq, Clone, Debug)]
pub struct Image {
    pub data: Vec<u8>,
    pub width: usize,
    pub height: usize,
    pub bytespp: usize,
}

/// The byte offset of pixel (x, y) in a row-major buffer.
pub open spec fn pixel_off(w: int, bpp: int, x: int, y: int) -> int {
    (x + y * w) * bpp
}

/// Where byte `k` of a vertically flipped buffer comes from: the same
/// column of the mirrored scanline.
pub open spec fn flip_v_index(w: int, h: int, bpp: int, k: int) -> int {
    let rb = w * bpp;
    (h - 1 - k / rb) * rb + k % rb
}

/// A buffer with its scanlines in reverse order.
pub open spec fn flip_v_seq(data: Seq<u8>, w: int, h: int, bpp: int) -> Seq<u8> {
    Seq::new(data.len(), |k: int| data[flip_v_index(w, h, bpp, k)])
}

/// Where byte `k` of a horizontally flipped buffer comes from: the same
/// channel of the mirrored pixel of the same scanline.
pub open spec fn flip_h_index(w: int, h: int, bpp: int, k: int) -> int {
    let rb = w * bpp;
    (k / rb) * rb + (w - 1 - (k % rb) / bpp) * bpp + (k % rb) % bpp
}

/// A buffer with the pixels of every scanline in reverse order.
pub open spec fn flip_h_seq(data: Seq<u8>, w: int, h: int, bpp: int) -> Seq<u8> {
    Seq::new(data.len(), |k: int| data[flip_h_index(w, h, bpp, k)])
}

/// Decompose a byte index `k` of an `h * rb`-byte buffer into its scanline
/// `k / rb` and the position `k % rb` within it.
pub(crate) proof fn lemma_index_decompose(k: int, rb: int, h: int)
    requires
        rb >= 1,
        0 <= k < h * rb,
    ensures
        0 <= k / rb < h,
        0 <= k % rb < rb,
        k == (k / rb) * rb + k % rb,
{
    vstd::arithmetic::div_mod::lemma_fundamental_div_mod(k, rb);
    vstd::arithmetic::div_mod::lemma_mod_division_less_than_divisor(k, rb);
    vstd::arithmetic::div_mod::lemma_div_pos_is_pos(k, rb);
    vstd::arithmetic::mul::lemma_mul_is_commutative(rb, k / rb);
    assert(k / rb < h) by (nonlinear_arith)
        requires
            rb >= 1,
            k < h * rb,
            k == (k / rb) * rb + k % rb,
            k % rb >= 0,
    ;
}

/// The mirrored index of a valid byte index is valid, and mirroring twice
/// gives the index back.
pub proof fn lemma_flip_v_index(w: int, h: int, bpp: int, k: int)
    requires
        w >= 1,
        h >= 1,
        bpp >= 1,
        0 <= k < h * (w * bpp),
    ensures
        0 <= flip_v_index(w, h, bpp, k) < h * (w * bpp),
        flip_v_index(w, h, bpp, flip_v_index(w, h, bpp, k)) == k,
{
    let rb = w * bpp;
    assert(w * bpp >= 1) by (nonlinear_arith)
        requires
            w >= 1,
            bpp >= 1,
    ;
    lemma_index_decompose(k, rb, h);
    let row = k / rb;
    let rem = k % rb;
    let m = (h - 1 - row) * rb + rem;
    assert(0 <= m < h * rb) by (nonlinear_arith)
        requires
            0 <= h - 1 - row < h,
            0 <= rem < rb,
            m == (h - 1 - row) * rb + rem,
    ;
    vstd::arithmetic::div_mod::lemma_fundamental_div_mod_converse_div(m, rb, h - 1 - row, rem);
    vstd::arithmetic::div_mod::lemma_fundamental_div_mod_converse_mod(m, rb, h - 1 - row, rem);
}

/// The horizontally mirrored index of a valid byte index is valid, and
/// mirroring twice gives the index back.
pub proof fn lemma_flip_h_index(w: int, h: int, bpp: int, k: int)
    requires
        w >= 1,
        h >= 1,
        bpp >= 1,
        0 <= k < h * (w * bpp),
    ensures
        0 <= flip_h_index(w, h, bpp, k) < h * (w * bpp),
        flip_h_index(w, h, bpp, flip_h_index(w, h, bpp, k)) == k,
{
    let rb = w * bpp;
    assert(w * bpp >= 1) by (nonlinear_arith)
        requires
            w >= 1,
            bpp >= 1,
    ;
    lemma_index_decompose(k, rb, h);
    let row = k / rb;
    let rem = k % rb;
    lemma_index_decompose(rem, bpp, w);
    let x = rem / bpp;
    let ch = rem % bpp;
    let rem2 = (w - 1 - x) * bpp + ch;
    assert(0 <= rem2 < rb) by (nonlinear_arith)
        requires
            0 <= w - 1 - x < w,
            0 <= ch < bpp,
            rem2 == (w - 1 - x) * bpp + ch,
            rb == w * bpp,
    ;
    let m = row * rb + rem2;
    assert(m == flip_h_index(w, h, bpp, k));
    assert(0 <= m < h * rb) by (nonlinear_arith)
        requires
            0 <= row < h,
            0 <= rem2 < rb,
            m == row * rb + rem2,
    ;
    vstd::arithmetic::div_mod::lemma_fundamental_div_mod_converse_div(m, rb, row, rem2);
    vstd::arithmetic::div_mod::lemma_fundamental_div_mod_converse_mod(m, rb, row, rem2);
    vstd::arithmetic::div_mod::lemma_fundamental_div_mod_converse_div(rem2, bpp, w - 1 - x, ch);
    vstd::arithmetic::div_mod::lemma_fundamental_div_mod_converse_mod(rem2, bpp, w - 1 - x, ch);
}

/// Two distinct pixels of the grid occupy disjoint byte ranges.
pub proof fn lemma_pixel_regions_disjoint(
    w: int,
    h: int,
    bpp: int,
    x: int,
    y: int,
    px: int,
    py: int,
)
    requires
        w >= 1,
        bpp >= 1,
        0 <= x < w,
        0 <= y < h,
        0 <= px < w,
        0 <= py < h,
        !(px == x && py == y),
    ensures
        pixel_off(w, bpp, px, py) + bpp <= pixel_off(w, bpp, x, y) || pixel_off(w, bpp, x, y) + bpp
            <= pixel_off(w, bpp, px, py),
{
    let c1 = px + py * w;
    let c2 = x + y * w;
    if c1 == c2 {
        vstd::arithmetic::div_mod::lemma_fundamental_div_mod_converse_div(c1, w, py, px);
        vstd::arithmetic::div_mod::lemma_fundamental_div_mod_converse_div(c2, w, y, x);
        vstd::arithmetic::div_mod::lemma_fundamental_div_mod_converse_mod(c1, w, py, px);
        vstd::arithmetic::div_mod::lemma_fundamental_div_mod_converse_mod(c2, w, y, x);
        assert(c1 == py * w + px && c2 == y * w + x);
        assert(false);
    } else if c1 < c2 {
        assert((c1 + 1) * bpp <= c2 * bpp && c1 * bpp + bpp == (c1 + 1) * bpp)
            by (nonlinear_arith)
            requires
                c1 < c2,
                bpp >= 1,
        ;
    } else {
        assert((c2 + 1) * bpp <= c1 * bpp && c2 * bpp + bpp == (c2 + 1) * bpp)
            by (nonlinear_arith)
            requires
                c2 < c1,
                bpp >= 1,
        ;
    }
}

/// Reversing the scanlines twice restores every byte of the buffer.
pub proof fn lemma_flip_v_involutive(data: Seq<u8>, w: int, h: int, bpp: int)
    requires
        w >= 1,
        h >= 1,
        bpp >= 1,
        data.len() == h * (w * bpp),
    ensures
        flip_v_seq(flip_v_seq(data, w, h, bpp), w, h, bpp) == data,
{
    let once = flip_v_seq(data, w, h, bpp);
    let twice = flip_v_seq(once, w, h, bpp);
    assert forall|k: int| 0 <= k < data.len() implies twice[k] == data[k] by {
        lemma_flip_v_index(w, h, bpp, k);
        lemma_flip_v_index(w, h, bpp, flip_v_index(w, h, bpp, k));
    }
    assert(twice =~= data);
}

/// Reversing the pixels of every scanline twice restores every byte.
pub proof fn lemma_flip_h_involutive(data: Seq<u8>, w: int, h: int, bpp: int)
    requires
        w >= 1,
        h >= 1,
        bpp >= 1,
        data.len() == h * (w * bpp),
    ensures
        flip_h_seq(flip_h_seq(data, w, h, bpp), w, h, bpp) == data,
{
    let once = flip_h_seq(data, w, h, bpp);
    let twice = flip_h_seq(once, w, h, bpp);
    assert forall|k: int| 0 <= k < data.len() implies twice[k] == data[k] by {
        lemma_flip_h_index(w, h, bpp, k);
        lemma_flip_h_index(w, h, bpp, flip_h_index(w, h, bpp, k));
    }
    assert(twice =~= data);
}

impl Image {
    /// Structural invariant: a supported pixel depth, positive dimensions,
    /// and a byte array of exactly `width * height * bytespp` bytes.
    pub open spec fn wf(&self) -> bool {
        &&& (self.bytespp == 1 || self.bytespp == 3 || self.bytespp == 4)
        &&& self.width >= 1
        &&& self.height >= 1
        &&& self.data@.len() == self.width * self.height * self.bytespp
    }

    /// The bytes of pixel (x, y).
    pub open spec fn pixel(&self, x: int, y: int) -> Seq<u8> {
        self.data@.subrange(
            pixel_off(self.width as int, self.bytespp as int, x, y),
            pixel_off(self.width as int, self.bytespp as int, x, y) + self.bytespp,
        )
    }

    /// The pixel offset of (x, y) is within the byte array, with room for
    /// one whole sample.
    pub proof fn lemma_pixel_off_in_range(&self, x: int, y: int)
        requires
            self.wf(),
            0 <= x < self.width,
            0 <= y < self.height,
        ensures
            0 <= x + y * self.width,
            x + y * self.width <= pixel_off(self.width as int, self.bytespp as int, x, y),
            0 <= pixel_off(self.width as int, self.bytespp as int, x, y),
            pixel_off(self.width as int, self.bytespp as int, x, y) + self.bytespp
                <= self.data@.len(),
    {
        let w = self.width as int;
        let h = self.height as int;
        let bpp = self.bytespp as int;
        assert(x + y * w <= (x + y * w) * bpp) by (nonlinear_arith)
            requires
                0 <= x,
                0 <= y,
                w >= 1,
                bpp >= 1,
        ;
        assert((x + y * w) * bpp + bpp <= w * h * bpp) by (nonlinear_arith)
            requires
                0 <= x < w,
                0 <= y < h,
                bpp >= 1,
        ;
        assert(0 <= (x + y * w) * bpp) by (nonlinear_arith)
            requires
                0 <= x,
                0 <= y,
                w >= 1,
                bpp >= 1,
        ;
    }

    /// A fresh zero-filled buffer.
    pub fn new(w: usize, h: usize, bpp: usize) -> (img: Image)
        requires
            w >= 1,
            h >= 1,
            bpp == 1 || bpp == 3 || bpp == 4,
            w * h * bpp <= usize::MAX,
        ensures
            img.wf(),
            img.width == w,
            img.height == h,
            img.bytespp == bpp,
            img.data@ == Seq::new((w * h * bpp) as nat, |i: int| 0u8),
    {
        proof {
            assert(w * h * bpp == (w * h) * bpp) by (nonlinear_arith);
            assert(w * h >= 1 && w * h <= w * h * bpp) by (nonlinear_arith)
                requires
                    w >= 1,
                    h >= 1,
                    bpp >= 1,
            ;
        }
        let n = w * h * bpp;
        let data = vec![0u8; n];
        Image { data: data, width: w, height: h, bytespp: bpp }
    }

    /// The sample at (x, y), or `OutOfBounds` when the coordinates fall
    /// outside the grid.
    pub fn get(&self, x: usize, y: usize) -> (r: Result<Color, TgaError>)
        requires
            self.wf(),
        ensures
            x < self.width && y < self.height ==> {
                &&& r is Ok
                &&& r->Ok_0.bytespp == self.bytespp
                &&& color_bytes(r->Ok_0, self.bytespp as int) == self.pixel(x as int, y as int)
                &&& forall|i: int| self.bytespp <= i < 4 ==> channel(r->Ok_0, i) == 0
            },
            x >= self.width || y >= self.height ==> r == Err::<Color, TgaError>(
                TgaError::OutOfBounds,
            ),
    {
        if x >= self.width || y >= self.height {
            return Err(TgaError::OutOfBounds);
        }
        // the length, as a machine word, bounds the offset arithmetic below
        let n = self.data.len();
        proof {
            self.lemma_pixel_off_in_range(x as int, y as int);
        }
        let start = (x + y * self.width) * self.bytespp;
        let c = Color::from_stream(self.data.as_slice(), start, self.bytespp);
        Ok(c)
    }

    /// Overwrite the sample at (x, y) with the first `bytespp` channels of
    /// `c`, or report `OutOfBounds`; no other byte changes.
    pub fn set(&mut self, x: usize, y: usize, c: &Color) -> (r: Result<(), TgaError>)
        requires
            old(self).wf(),
        ensures
            final(self).wf(),
            final(self).width == old(self).width,
            final(self).height == old(self).height,
            final(self).bytespp == old(self).bytespp,
            x < old(self).width && y < old(self).height ==> {
                &&& r is Ok
                &&& final(self).data@.len() == old(self).data@.len()
                &&& forall|i: int|
                    0 <= i < old(self).data@.len() ==> final(self).data@[i] == {
                        let off = pixel_off(
                            old(self).width as int,
                            old(self).bytespp as int,
                            x as int,
                            y as int,
                        );
                        if off <= i < off + old(self).bytespp {
                            channel(*c, i - off)
                        } else {
                            old(self).data@[i]
                        }
                    }
            },
            x >= old(self).width || y >= old(self).height ==> {
                &&& r == Err::<(), TgaError>(TgaError::OutOfBounds)
                &&& *final(self) == *old(self)
            },
    {
        if x >= self.width || y >= self.height {
            return Err(TgaError::OutOfBounds);
        }
        // the length, as a machine word, bounds the offset arithmetic below
        let n = self.data.len();
        proof {
            self.lemma_pixel_off_in_range(x as int, y as int);
        }
        let start = (x + y * self.width) * self.bytespp;
        self.data.set(start, c.b);
        if self.bytespp > 1 {
            self.data.set(start + 1, c.g);
            self.data.set(start + 2, c.r);
        }
        if self.bytespp > 3 {
            self.data.set(start + 3, c.a);
        }
        Ok(())
    }

    /// Reverse the order of the scanlines: row i becomes row height-1-i.
    /// Applying it twice restores the buffer.
    pub fn flip_vertically(&mut self)
        requires
            old(self).wf(),
        ensures
            final(self).wf(),
            final(self).width == old(self).width,
            final(self).height == old(self).height,
            final(self).bytespp == old(self).bytespp,
            final(self).data@ == flip_v_seq(
                old(self).data@,
                old(self).width as int,
                old(self).height as int,
                old(self).bytespp as int,
            ),
    {
        let n = self.data.len();
        proof {
            assert(self.width * self.bytespp <= n && self.width * self.bytespp >= 1
                && n == self.height * (self.width * self.bytespp)) by (nonlinear_arith)
                requires
                    self.width >= 1,
                    self.height >= 1,
                    self.bytespp >= 1,
                    n == self.width * self.height * self.bytespp,
            ;
        }
        let rb = self.width * self.bytespp;
        let mut nd: Vec<u8> = Vec::with_capacity(n);
        let mut k: usize = 0;
        while k < n
            invariant
                self == old(self),
                self.wf(),
                n == self.data@.len(),
                n == self.height * (self.width * self.bytespp),
                rb == self.width * self.bytespp,
                rb >= 1,
                k <= n,
                nd@.len() == k,
                forall|j: int|
                    0 <= j < k ==> nd@[j] == self.data@[flip_v_index(
                        self.width as int,
                        self.height as int,
                        self.bytespp as int,
                        j,
                    )],
            decreases n - k,
        {
            proof {
                lemma_flip_v_index(
                    self.width as int,
                    self.height as int,
                    self.bytespp as int,
                    k as int,
                );
                lemma_index_decompose(k as int, rb as int, self.height as int);
            }
            let row = k / rb;
            let rem = k % rb;
            let src = (self.height - 1 - row) * rb + rem;
            nd.push(self.data[src]);
            k += 1;
        }
        self.data = nd;
        proof {
            assert(self.data@ =~= flip_v_seq(
                old(self).data@,
                old(self).width as int,
                old(self).height as int,
                old(self).bytespp as int,
            ));
        }
    }

    /// Reverse the pixels of every scanline: column i becomes column
    /// width-1-i, sample by sample.  Applying it twice restores the buffer.
    pub fn flip_horizontally(&mut self)
        requires
            old(self).wf(),
        ensures
            final(self).wf(),
            final(self).width == old(self).width,
            final(self).height == old(self).height,
            final(self).bytespp == old(self).bytespp,
            final(self).data@ == flip_h_seq(
                old(self).data@,
                old(self).width as int,
                old(self).height as int,
                old(self).bytespp as int,
            ),
    {
        let n = self.data.len();
        proof {
            assert(self.width * self.bytespp <= n && self.width * self.bytespp >= 1
                && n == self.height * (self.width * self.bytespp)) by (nonlinear_arith)
                requires
                    self.width >= 1,
                    self.height >= 1,
                    self.bytespp >= 1,
                    n == self.width * self.height * self.bytespp,
            ;
        }
        let rb = self.width * self.bytespp;
        let mut nd: Vec<u8> = Vec::with_capacity(n);
        let mut k: usize = 0;
        while k < n
            invariant
                self == old(self),
                self.wf(),
                n == self.data@.len(),
                n == self.height * (self.width * self.bytespp),
                rb == self.width * self.bytespp,
                rb >= 1,
                k <= n,
                nd@.len() == k,
                forall|j: int|
                    0 <= j < k ==> nd@[j] == self.data@[flip_h_index(
                        self.width as int,
                        self.height as int,
                        self.bytespp as int,
                        j,
                    )],
            decreases n - k,
        {
            proof {
                lemma_flip_h_index(
                    self.width as int,
                    self.height as int,
                    self.bytespp as int,
                    k as int,
                );
                lemma_index_decompose(k as int, rb as int, self.height as int);
                lemma_index_decompose((k % rb) as int, self.bytespp as int, self.width as int);
                assert((k / rb) * rb + (self.width - 1 - (k % rb) / self.bytespp) * self.bytespp
                    + (k % rb) % self.bytespp == flip_h_index(
                    self.width as int,
                    self.height as int,
                    self.bytespp as int,
                    k as int,
                ));
            }
            let row = k / rb;
            let rem = k % rb;
            let x = rem / self.bytespp;
            let ch = rem % self.bytespp;
            let src = row * rb + (self.width - 1 - x) * self.bytespp + ch;
            nd.push(self.data[src]);
            k += 1;
        }
        self.data = nd;
        proof {
            assert(self.data@ =~= flip_h_seq(
                old(self).data@,
                old(self).width as int,
                old(self).height as int,
                old(self).bytespp as int,
            ));
        }
    }

    /// Zero-fill every byte; the dimensions stay as they are.
    pub fn clear(&mut self)
        requires
            old(self).wf(),
        ensures
            final(self).wf(),
            final(self).width == old(self).width,
            final(self).height == old(self).height,
            final(self).bytespp == old(self).bytespp,
            final(self).data@ == Seq::new(old(self).data@.len(), |i: int| 0u8),
    {
        let n = self.data.len();
        let data = vec![0u8; n];
        self.data = data;
    }
}

/// Byte `r` of one horizontally resampled scanline: each destination
/// pixel nx copies source pixel ceil(nx * ow / nw) of scanline `oy`,
/// and a destination pixel the scan never reaches stays zero.
pub open spec fn hrow_byte(src: Seq<u8>, ow: int, bpp: int, oy: int, nw: int, r: int) -> u8 {
    let nx = r / bpp;
    let ch = r % bpp;
    let sx = (nx * ow + nw - 1) / nw;
    if sx < ow {
        src[(sx + oy * ow) * bpp + ch]
    } else {
        0
    }
}

/// Resample scanline `oy` of `src` to `nw` pixels by the integer
/// error-accumulation scan: walk the source pixels adding `nw` to the
/// error, and each time it reaches `ow`, take `ow` back and emit one
/// destination pixel copied from the current source pixel.
fn scale_hrow(src: &Vec<u8>, ow: usize, bpp: usize, oy: usize, nw: usize) -> (row: Vec<u8>)
    requires
        1 <= bpp <= 4,
        ow >= 1,
        nw >= 1,
        ow <= 0xffff_ffff,
        nw <= 0xffff_ffff,
        (oy + 1) * (ow * bpp) <= src@.len(),
        nw * bpp <= usize::MAX,
    ensures
        row@.len() == nw * bpp,
        forall|r: int|
            0 <= r < nw * bpp ==> row@[r] == hrow_byte(src@, ow as int, bpp as int, oy as int,
                nw as int, r),
{
    let ghost owi = ow as int;
    let ghost nwi = nw as int;
    let ghost bppi = bpp as int;
    let ghost oyi = oy as int;
    let nb = nw * bpp;
    let mut row: Vec<u8> = vec![0u8; nb];
    let slen = src.len();
    proof {
        assert(ow * bpp <= (oy + 1) * (ow * bpp) && oyi * (owi * bppi) + owi * bppi == (oyi + 1) * (
        owi * bppi)) by (nonlinear_arith)
            requires
                oyi >= 0,
                owi >= 1,
                bppi >= 1,
        ;
    }
    let owbpp = ow * bpp;
    let orow = oy * owbpp;
    let mut errx: i64 = ow as i64 - nw as i64;
    let mut e: usize = 0;
    let mut ox: usize = 0;
    let ghost mut oxn: int = 0;
    let ghost mut eo: int = 0;
    while ox < ow
        invariant
            1 <= bppi <= 4,
            owi >= 1,
            nwi >= 1,
            owi <= 0xffff_ffff,
            nwi <= 0xffff_ffff,
            owi == ow as int,
            nwi == nw as int,
            bppi == bpp as int,
            oyi == oy as int,
            nb == nwi * bppi,
            owbpp == owi * bppi,
            orow == oyi * (owi * bppi),
            orow + owi * bppi <= slen,
            slen == src@.len(),
            row@.len() == nb,
            0 <= ox <= ow,
            0 <= e,
            oxn == ox * nwi,
            eo == e * owi,
            errx == owi - nwi + oxn - eo,
            errx < owi,
            forall|r: int|
                0 <= r < nb && r / bppi < e ==> row@[r] == hrow_byte(src@, owi, bppi, oyi, nwi, r),
            forall|r: int| 0 <= r < nb && r / bppi >= e ==> row@[r] == 0,
        decreases ow - ox,
    {
        errx = errx + nw as i64;
        proof {
            oxn = oxn + nwi;
            assert((ox + 1) * nwi == ox * nwi + nwi) by (nonlinear_arith);
        }
        while errx >= ow as i64
            invariant
                1 <= bppi <= 4,
                owi >= 1,
                nwi >= 1,
                owi <= 0xffff_ffff,
                nwi <= 0xffff_ffff,
                owi == ow as int,
                nwi == nw as int,
                bppi == bpp as int,
                oyi == oy as int,
                nb == nwi * bppi,
                owbpp == owi * bppi,
                orow == oyi * (owi * bppi),
                orow + owi * bppi <= slen,
                slen == src@.len(),
                row@.len() == nb,
                0 <= ox < ow,
                0 <= e,
                oxn == (ox + 1) * nwi,
                eo == e * owi,
                eo > oxn - 2 * nwi,
                errx == owi + oxn - nwi - eo,
                forall|r: int|
                    0 <= r < nb && r / bppi < e ==> row@[r] == hrow_byte(src@, owi, bppi, oyi,
                        nwi, r),
                forall|r: int| 0 <= r < nb && r / bppi >= e ==> row@[r] == 0,
            decreases errx,
        {
            errx = errx - ow as i64;
            // this emission's destination pixel is e; its source is ox
            proof {
                assert(eo <= oxn - nwi);
                assert(eo + nwi - 1 == ox * nwi + (eo + 2 * nwi - 1 - oxn)) by (nonlinear_arith)
                    requires
                        oxn == (ox + 1) * nwi,
                ;
                vstd::arithmetic::div_mod::lemma_fundamental_div_mod_converse_div(
                    eo + nwi - 1,
                    nwi,
                    ox as int,
                    eo + 2 * nwi - 1 - oxn,
                );
                assert((e * owi + nwi - 1) / nwi == ox as int);
                assert(e < nwi) by (nonlinear_arith)
                    requires
                        eo == e * owi,
                        oxn == (ox + 1) * nwi,
                        eo <= oxn - nwi,
                        ox < owi,
                        nwi >= 1,
                        owi >= 1,
                        e >= 0,
                ;
                assert(e * bppi + bppi <= nwi * bppi && 0 <= e * bppi) by (nonlinear_arith)
                    requires
                        e < nwi,
                        0 <= e,
                        bppi >= 1,
                ;
                assert(ox * bppi + bppi <= owi * bppi && 0 <= ox * bppi) by (nonlinear_arith)
                    requires
                        ox < owi,
                        0 <= ox,
                        bppi >= 1,
                ;
            }
            let dbase = e * bpp;
            let sbase = orow + ox * bpp;
            let mut t: usize = 0;
            while t < bpp
                invariant
                    1 <= bppi <= 4,
                    owi >= 1,
                    nwi >= 1,
                    bppi == bpp as int,
                    owi == ow as int,
                    nwi == nw as int,
                    oyi == oy as int,
                    nb == nwi * bppi,
                    orow == oyi * (owi * bppi),
                    slen == src@.len(),
                    row@.len() == nb,
                    0 <= ox < ow,
                    0 <= e < nw,
                    dbase == e * bppi,
                    sbase == orow + ox * bppi,
                    dbase + bppi <= nb,
                    sbase + bppi <= slen,
                    t <= bpp,
                    (e * owi + nwi - 1) / nwi == ox as int,
                    forall|r: int|
                        0 <= r < nb && r / bppi < e ==> row@[r] == hrow_byte(src@, owi, bppi, oyi,
                            nwi, r),
                    forall|r: int|
                        0 <= r < nb && r / bppi == e && r % bppi < t ==> row@[r] == hrow_byte(
                            src@, owi, bppi, oyi, nwi, r),
                    forall|r: int|
                        0 <= r < nb && r / bppi == e && r % bppi >= t ==> row@[r] == 0,
                    forall|r: int| 0 <= r < nb && r / bppi > e ==> row@[r] == 0,
                decreases bpp - t,
            {
                let b = src[sbase + t];
                row.set(dbase + t, b);
                proof {
                    let r = dbase + t;
                    vstd::arithmetic::div_mod::lemma_fundamental_div_mod_converse_div(
                        r as int,
                        bppi,
                        e as int,
                        t as int,
                    );
                    vstd::arithmetic::div_mod::lemma_fundamental_div_mod_converse_mod(
                        r as int,
                        bppi,
                        e as int,
                        t as int,
                    );
                    assert((ox as int + oyi * owi) * bppi + t == orow + ox * bppi + t)
                        by (nonlinear_arith)
                        requires
                            orow == oyi * (owi * bppi),
                    ;
                    assert(row@[r as int] == hrow_byte(src@, owi, bppi, oyi, nwi, r as int));
                    assert forall|r2: int|
                        0 <= r2 < nb && r2 / bppi == e && r2 % bppi >= t + 1 implies row@[r2]
                        == 0 by {
                        if r2 == r as int {
                            assert(false);
                        }
                    }
                    assert forall|r2: int|
                        0 <= r2 < nb && r2 / bppi == e && r2 % bppi < t + 1 implies row@[r2]
                        == hrow_byte(src@, owi, bppi, oyi, nwi, r2) by {
                        vstd::arithmetic::div_mod::lemma_fundamental_div_mod(r2, bppi);
                        vstd::arithmetic::mul::lemma_mul_is_commutative(bppi, r2 / bppi);
                        if r2 != r as int {
                            assert(r2 % bppi < t);
                            assert(row@[r2] == hrow_byte(src@, owi, bppi, oyi, nwi, r2));
                        }
                    }
                }
                t += 1;
            }
            e += 1;
            proof {
                eo = eo + owi;
                assert((e as int) * owi == (e - 1) * owi + owi) by (nonlinear_arith);
                assert forall|r: int| 0 <= r < nb && r / bppi < e implies row@[r] == hrow_byte(
                    src@,
                    owi,
                    bppi,
                    oyi,
                    nwi,
                    r,
                ) by {
                    vstd::arithmetic::div_mod::lemma_mod_division_less_than_divisor(r, bppi);
                }
            }
        }
        ox += 1;
    }
    proof {
        // destination pixels the scan never reached lie past the end of
        // the source scanline
        assert forall|r: int| 0 <= r < nb && r / bppi >= e implies hrow_byte(
            src@,
            owi,
            bppi,
            oyi,
            nwi,
            r,
        ) == 0 by {
            let nx = r / bppi;
            assert(eo > owi * nwi - nwi);
            assert(nx * owi >= e * owi) by (nonlinear_arith)
                requires
                    nx >= e,
                    owi >= 1,
            ;
            assert(nx * owi + nwi - 1 >= owi * nwi);
            vstd::arithmetic::div_mod::lemma_div_is_ordered(owi * nwi, nx * owi + nwi - 1, nwi);
            vstd::arithmetic::div_mod::lemma_div_by_multiple(owi, nwi);
            assert((nx * owi + nwi - 1) / nwi >= owi);
        }
    }
    row
}

/// Byte `k` of the nearest-neighbor resample of a whole buffer:
/// destination row ny copies the horizontally resampled source row
/// ceil((ny + 1) * oh / nh) - 1.
pub open spec fn scale_byte(
    src: Seq<u8>,
    ow: int,
    oh: int,
    bpp: int,
    nw: int,
    nh: int,
    k: int,
) -> u8 {
    let ny = k / (nw * bpp);
    let r = k % (nw * bpp);
    let sy = ((ny + 1) * oh + nh - 1) / nh - 1;
    hrow_byte(src, ow, bpp, sy, nw, r)
}

/// The nearest-neighbor resample of a whole buffer to `nw` x `nh`.
pub open spec fn scale_seq(src: Seq<u8>, ow: int, oh: int, bpp: int, nw: int, nh: int) -> Seq<u8> {
    Seq::new((nh * (nw * bpp)) as nat, |k: int| scale_byte(src, ow, oh, bpp, nw, nh, k))
}

impl Image {
    /// Nearest-neighbor resample to `w` x `h` pixels, by an integer
    /// error-accumulation scan on each axis: the horizontal scan emits a
    /// destination pixel each time its error reaches the old width, and
    /// the vertical scan advances the destination row each time its
    /// error reaches the old height, duplicating the finished row when
    /// the ratio calls for more than one copy.  Replaces the pixel array
    /// and the dimensions.
    pub fn scale(&mut self, w: usize, h: usize)
        requires
            old(self).wf(),
            w >= 1,
            h >= 1,
            w <= 0xffff_ffff,
            h <= 0xffff_ffff,
            old(self).width <= 0xffff_ffff,
            old(self).height <= 0xffff_ffff,
            w * h * old(self).bytespp <= usize::MAX,
        ensures
            final(self).wf(),
            final(self).width == w,
            final(self).height == h,
            final(self).bytespp == old(self).bytespp,
            final(self).data@ == scale_seq(
                old(self).data@,
                old(self).width as int,
                old(self).height as int,
                old(self).bytespp as int,
                w as int,
                h as int,
            ),
    {
        let bpp = self.bytespp;
        let ow = self.width;
        let oh = self.height;
        let ghost owi = ow as int;
        let ghost ohi = oh as int;
        let ghost nwi = w as int;
        let ghost nhi = h as int;
        let ghost bppi = bpp as int;
        let ghost data = self.data@;
        proof {
            assert(w * bpp <= w * h * bpp && w * h * bpp == h * (w * bpp) && data.len() == ohi * (
            owi * bppi)) by (nonlinear_arith)
                requires
                    w >= 1,
                    h >= 1,
                    bpp >= 1,
                    data.len() == owi * ohi * bppi,
                    bppi == bpp as int,
                    nwi == w as int,
                    nhi == h as int,
            ;
        }
        let nwbpp = w * bpp;
        let total = w * h * bpp;
        let mut nd: Vec<u8> = vec![0u8; total];
        let mut nrow: usize = 0;
        let mut erry: i64 = 0;
        let mut oy: usize = 0;
        let ghost mut oyn: int = 0;
        let ghost mut ro: int = 0;
        while oy < oh
            invariant
                self.wf(),
                self.width == old(self).width,
                self.height == old(self).height,
                self.bytespp == old(self).bytespp,
                self.data@ == data,
                1 <= bppi <= 4,
                owi >= 1,
                ohi >= 1,
                nwi >= 1,
                nhi >= 1,
                owi <= 0xffff_ffff,
                ohi <= 0xffff_ffff,
                nwi <= 0xffff_ffff,
                nhi <= 0xffff_ffff,
                owi == ow as int,
                ohi == oh as int,
                nwi == w as int,
                nhi == h as int,
                bppi == bpp as int,
                data.len() == ohi * (owi * bppi),
                nwbpp == nwi * bppi,
                total == nhi * (nwi * bppi),
                nd@.len() == total,
                0 <= oy <= oh,
                0 <= nrow,
                oyn == oy * nhi,
                ro == nrow * ohi,
                erry == oyn - ro,
                0 <= erry < ohi,
                forall|k: int|
                    0 <= k < nrow * (nwi * bppi) ==> nd@[k] == scale_byte(data, owi, ohi, bppi,
                        nwi, nhi, k),
            decreases oh - oy,
        {
            proof {
                assert(nrow < nhi && (nrow + 1) * (nwi * bppi) <= total && 0 <= nrow * (nwi
                    * bppi) && nrow * (nwi * bppi) + nwi * bppi == (nrow + 1) * (nwi * bppi))
                    by (nonlinear_arith)
                    requires
                        ro == nrow * ohi,
                        oyn == oy * nhi,
                        ro <= oyn,
                        oy < ohi,
                        ohi >= 1,
                        nhi >= 1,
                        nrow >= 0,
                        total == nhi * (nwi * bppi),
                        nwi * bppi >= 0,
                ;
                assert((oy + 1) * (owi * bppi) <= ohi * (owi * bppi)) by (nonlinear_arith)
                    requires
                        oy < ohi,
                        owi * bppi >= 0,
                ;
            }
            let hrow_v = scale_hrow(&self.data, ow, bpp, oy, w);
            let base = nrow * nwbpp;
            let mut t: usize = 0;
            while t < nwbpp
                invariant
                    nwbpp == nwi * bppi,
                    total == nhi * (nwi * bppi),
                    nd@.len() == total,
                    base == nrow * (nwi * bppi),
                    base + nwbpp <= total,
                    t <= nwbpp,
                    hrow_v@.len() == nwbpp,
                    forall|r: int|
                        0 <= r < nwbpp ==> hrow_v@[r] == hrow_byte(data, owi, bppi, oy as int,
                            nwi, r),
                    forall|k: int|
                        0 <= k < base ==> nd@[k] == scale_byte(data, owi, ohi, bppi, nwi, nhi, k),
                    forall|r: int| 0 <= r < t ==> nd@[base + r] == hrow_v@[r],
                decreases nwbpp - t,
            {
                let b = hrow_v[t];
                nd.set(base + t, b);
                t += 1;
            }
            erry = erry + h as i64;
            proof {
                oyn = oyn + nhi;
                assert((oy + 1) * nhi == oy * nhi + nhi) by (nonlinear_arith);
                assert((oy + 1) * nhi <= ohi * nhi) by (nonlinear_arith)
                    requires
                        oy + 1 <= ohi,
                        nhi >= 0,
                ;
                assert forall|r: int| 0 <= r < nwi * bppi implies nd@[nrow * (nwi * bppi) + r]
                    == hrow_byte(data, owi, bppi, oy as int, nwi, r) by {
                    assert(nd@[base + r] == hrow_v@[r]);
                }
            }
            while erry >= oh as i64
                invariant
                    1 <= bppi <= 4,
                    ohi >= 1,
                    nhi >= 1,
                    nwi >= 1,
                    owi >= 1,
                    ohi <= 0xffff_ffff,
                    nhi <= 0xffff_ffff,
                    ohi == oh as int,
                    nhi == h as int,
                    nwbpp == nwi * bppi,
                    total == nhi * (nwi * bppi),
                    nd@.len() == total,
                    0 <= oy < ohi,
                    0 <= nrow,
                    oyn == (oy + 1) * nhi,
                    oyn <= ohi * nhi,
                    ro == nrow * ohi,
                    ro > oyn - nhi - ohi,
                    erry == oyn - ro,
                    erry >= 0,
                    forall|k: int|
                        0 <= k < nrow * (nwi * bppi) ==> nd@[k] == scale_byte(data, owi, ohi,
                            bppi, nwi, nhi, k),
                    erry >= ohi ==> nrow * (nwi * bppi) + nwi * bppi <= total && (forall|r: int|
                        0 <= r < nwi * bppi ==> nd@[nrow * (nwi * bppi) + r] == hrow_byte(
                            data, owi, bppi, oy as int, nwi, r)),
                decreases erry,
            {
                if erry >= 2 * (oh as i64) {
                    proof {
                        assert(nrow + 2 <= nhi && (nrow + 2) * (nwi * bppi) <= total && nrow * (
                        nwi * bppi) + nwi * bppi + nwi * bppi == (nrow + 2) * (nwi * bppi) && 0
                            <= nrow * (nwi * bppi)) by (nonlinear_arith)
                            requires
                                erry == oyn - ro,
                                erry >= 2 * ohi,
                                ro == nrow * ohi,
                                oyn <= ohi * nhi,
                                ohi >= 1,
                                nhi >= 1,
                                nrow >= 0,
                                total == nhi * (nwi * bppi),
                                nwi * bppi >= 0,
                        ;
                    }
                    let dbase = nrow * nwbpp;
                    let mut t2: usize = 0;
                    while t2 < nwbpp
                        invariant
                            nwbpp == nwi * bppi,
                            total == nhi * (nwi * bppi),
                            nd@.len() == total,
                            dbase == nrow * (nwi * bppi),
                            dbase + nwbpp + nwbpp <= total,
                            t2 <= nwbpp,
                            forall|k: int|
                                0 <= k < dbase ==> nd@[k] == scale_byte(data, owi, ohi, bppi,
                                    nwi, nhi, k),
                            forall|r: int|
                                0 <= r < nwbpp ==> nd@[dbase + r] == hrow_byte(data, owi, bppi,
                                    oy as int, nwi, r),
                            forall|r: int|
                                0 <= r < t2 ==> nd@[dbase + nwbpp + r] == hrow_byte(data, owi,
                                    bppi, oy as int, nwi, r),
                        decreases nwbpp - t2,
                    {
                        let b = nd[dbase + t2];
                        nd.set(dbase + nwbpp + t2, b);
                        t2 += 1;
                    }
                }
                proof {
                    assert(nrow < nhi) by (nonlinear_arith)
                        requires
                            ro == nrow * ohi,
                            erry == oyn - ro,
                            erry >= ohi,
                            oyn <= ohi * nhi,
                            ohi >= 1,
                            nrow >= 0,
                            nhi >= 1,
                    ;
                }
                erry = erry - oh as i64;
                let ghost ny = nrow as int;
                nrow += 1;
                proof {
                    ro = ro + ohi;
                    assert((ny + 1) * ohi == ny * ohi + ohi) by (nonlinear_arith);
                    assert(nwi * bppi >= 1) by (nonlinear_arith)
                        requires
                            nwi >= 1,
                            bppi >= 1,
                    ;
                    // the row just finished takes source row oy, which is
                    // exactly the closed-form source row for it
                    let rb = nwi * bppi;
                    assert((ny + 1) * ohi + nhi - 1 == (oy + 1) * nhi + ((ny + 1) * ohi + nhi - 1
                        - oyn));
                    vstd::arithmetic::div_mod::lemma_fundamental_div_mod_converse_div(
                        (ny + 1) * ohi + nhi - 1,
                        nhi,
                        oy + 1,
                        (ny + 1) * ohi + nhi - 1 - oyn,
                    );
                    assert(((ny + 1) * ohi + nhi - 1) / nhi - 1 == oy as int);
                    assert(nrow * rb == ny * rb + rb && 0 <= ny * rb) by (nonlinear_arith)
                        requires
                            nrow == ny + 1,
                            ny >= 0,
                            rb >= 0,
                    ;
                    assert forall|k: int| 0 <= k < nrow * rb implies nd@[k] == scale_byte(
                        data,
                        owi,
                        ohi,
                        bppi,
                        nwi,
                        nhi,
                        k,
                    ) by {
                        if k >= ny * rb {
                            vstd::arithmetic::div_mod::lemma_fundamental_div_mod_converse_div(
                                k,
                                rb,
                                ny,
                                k - ny * rb,
                            );
                            vstd::arithmetic::div_mod::lemma_fundamental_div_mod_converse_mod(
                                k,
                                rb,
                                ny,
                                k - ny * rb,
                            );
                            assert(nd@[k] == hrow_byte(data, owi, bppi, oy as int, nwi, k - ny
                                * rb));
                        }
                    }
                }
            }
            oy += 1;
        }
        proof {
            assert(nrow * (nwi * bppi) >= total) by (nonlinear_arith)
                requires
                    erry == oyn - ro,
                    0 <= erry < ohi,
                    oyn == ohi * nhi,
                    ro == nrow * ohi,
                    ohi >= 1,
                    nhi >= 1,
                    total == nhi * (nwi * bppi),
                    nwi * bppi >= 0,
                    nrow >= 0,
            ;
            assert(nd@ =~= scale_seq(data, owi, ohi, bppi, nwi, nhi));
        }
        self.data = nd;
        self.width = w;
        self.height = h;
        proof {
            assert(w * h * bppi == w * (h * bppi) && total == w * h * bppi) by (nonlinear_arith)
                requires
                    total == nhi * (nwi * bppi),
                    nwi == w as int,
                    nhi == h as int,
                    bppi >= 1,
            ;
        }
    }
}

} // verus!
