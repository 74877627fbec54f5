use vstd::prelude::*;

use crate::color::TgaError;
use crate::header::HEADER_LEN;
use crate::header::Header;
use crate::header::header_bytes;
use crate::header::lemma_header_roundtrip;
use crate::header::parse_header;
use crate::image::Image;
use crate::image::flip_h_seq;
use crate::image::flip_v_seq;

verus! {

/// The bytes of pixel `p` of a flat `bpp`-bytes-per-pixel buffer.
pub open spec fn pix(data: Seq<u8>, bpp: int, p: int) -> Seq<u8> {
    data.subrange(p * bpp, p * bpp + bpp)
}

/// Whether pixel `p` and its successor hold the same sample.
pub open spec fn pix_eq(data: Seq<u8>, bpp: int, p: int) -> bool {
    pix(data, bpp, p) == pix(data, bpp, p + 1)
}

/// The length of the repeat packet that starts at pixel `c`: the packet
/// keeps extending while the next pixel equals the current one, up to
/// `cap` pixels or the end of the buffer.  The pair after pixel `c` is
/// only examined while the packet may still grow, so a full packet stops
/// without looking further.
pub open spec fn repeat_run(data: Seq<u8>, bpp: int, c: int, npix: int, cap: int) -> int
    decreases cap,
{
    if cap <= 1 {
        1
    } else if c + 1 >= npix {
        1
    } else if !pix_eq(data, bpp, c) {
        1
    } else {
        1 + repeat_run(data, bpp, c + 1, npix, cap - 1)
    }
}

/// The length of the raw packet that starts at pixel `c`: the packet
/// keeps extending while successive pixels differ from their successor.
/// The moment two consecutive equal pixels appear, the first of them is
/// backed off the packet (it starts a repeat packet instead), which the
/// zero result of the recursive step expresses.
pub open spec fn raw_run(data: Seq<u8>, bpp: int, c: int, npix: int, cap: int) -> int
    decreases cap,
{
    if cap <= 0 {
        0
    } else if c + 1 >= npix {
        1
    } else if cap == 1 {
        1
    } else if pix_eq(data, bpp, c) {
        0
    } else {
        1 + raw_run(data, bpp, c + 1, npix, cap - 1)
    }
}

/// A repeat run is between 1 and `cap` pixels long and never runs past
/// the end of the buffer.
pub proof fn lemma_repeat_run_bounds(data: Seq<u8>, bpp: int, c: int, npix: int, cap: int)
    requires
        cap >= 1,
        c < npix,
    ensures
        1 <= repeat_run(data, bpp, c, npix, cap),
        repeat_run(data, bpp, c, npix, cap) <= cap,
        c + repeat_run(data, bpp, c, npix, cap) <= npix,
    decreases cap,
{
    if cap > 1 && c + 1 < npix && pix_eq(data, bpp, c) {
        lemma_repeat_run_bounds(data, bpp, c + 1, npix, cap - 1);
    }
}

/// A raw run is at most `cap` pixels long, never runs past the end of
/// the buffer, and is nonempty where a raw packet starts: at the last
/// pixel, or where the next pixel differs.
pub proof fn lemma_raw_run_bounds(data: Seq<u8>, bpp: int, c: int, npix: int, cap: int)
    requires
        cap >= 1,
        c < npix,
    ensures
        0 <= raw_run(data, bpp, c, npix, cap),
        raw_run(data, bpp, c, npix, cap) <= cap,
        c + raw_run(data, bpp, c, npix, cap) <= npix,
        c + 1 >= npix || !pix_eq(data, bpp, c) ==> raw_run(data, bpp, c, npix, cap) >= 1,
    decreases cap,
{
    if cap > 1 && c + 1 < npix && !pix_eq(data, bpp, c) {
        lemma_raw_run_bounds(data, bpp, c + 1, npix, cap - 1);
    }
}

/// Every pixel of a repeat run equals the first one.
pub proof fn lemma_repeat_run_pixels(data: Seq<u8>, bpp: int, c: int, npix: int, cap: int)
    requires
        cap >= 1,
        c < npix,
    ensures
        forall|j: int|
            0 <= j < repeat_run(data, bpp, c, npix, cap) ==> #[trigger] pix(data, bpp, c + j)
                == pix(data, bpp, c),
    decreases cap,
{
    if cap > 1 && c + 1 < npix && pix_eq(data, bpp, c) {
        lemma_repeat_run_pixels(data, bpp, c + 1, npix, cap - 1);
        assert forall|j: int| 0 <= j < repeat_run(data, bpp, c, npix, cap) implies #[trigger] pix(
            data,
            bpp,
            c + j,
        ) == pix(data, bpp, c) by {
            if j > 0 {
                assert(pix(data, bpp, c + 1 + (j - 1)) == pix(data, bpp, c + 1));
            }
        }
    }
}

/// The run-length encoding of pixels `cur` to `npix` of a buffer: a
/// sequence of packets, each a header byte followed by one sample
/// (repeat packet, header 128 + length - 1) or by the verbatim samples
/// (raw packet, header length - 1).
pub open spec fn rle_encode(data: Seq<u8>, bpp: int, cur: int, npix: int) -> Seq<u8>
    decreases npix - cur,
        via rle_encode_decreases
{
    if cur < 0 || cur >= npix {
        Seq::empty()
    } else if cur + 1 < npix && pix_eq(data, bpp, cur) {
        let r = repeat_run(data, bpp, cur, npix, 128);
        seq![(r + 127) as u8] + data.subrange(cur * bpp, cur * bpp + bpp) + rle_encode(
            data,
            bpp,
            cur + r,
            npix,
        )
    } else {
        let r = raw_run(data, bpp, cur, npix, 128);
        seq![(r - 1) as u8] + data.subrange(cur * bpp, (cur + r) * bpp) + rle_encode(
            data,
            bpp,
            cur + r,
            npix,
        )
    }
}

#[via_fn]
proof fn rle_encode_decreases(data: Seq<u8>, bpp: int, cur: int, npix: int) {
    if 0 <= cur < npix {
        if cur + 1 < npix && pix_eq(data, bpp, cur) {
            lemma_repeat_run_bounds(data, bpp, cur, npix, 128);
        } else {
            lemma_raw_run_bounds(data, bpp, cur, npix, 128);
        }
    }
}

/// One sample replicated `n` times.
pub open spec fn repeat_color(color: Seq<u8>, n: int) -> Seq<u8> {
    Seq::new((n * color.len()) as nat, |i: int| color[i % (color.len() as int)])
}

/// Decode `npix` pixels of a run-length stream, or nothing where the
/// stream is truncated or a packet would overrun the pixel count.  Bytes
/// after the last packet are left alone.
pub open spec fn rle_decode(stream: Seq<u8>, bpp: int, npix: int) -> Option<Seq<u8>>
    decreases npix,
{
    if npix <= 0 {
        Some(Seq::empty())
    } else if stream.len() < 1 {
        None
    } else {
        let h = stream[0] as int;
        let n = if h < 128 {
            h + 1
        } else {
            h - 127
        };
        if n > npix {
            None
        } else if h < 128 {
            if stream.len() < 1 + n * bpp {
                None
            } else {
                match rle_decode(stream.subrange(1 + n * bpp, stream.len() as int), bpp, npix - n) {
                    Some(rest) => Some(stream.subrange(1, 1 + n * bpp) + rest),
                    None => None,
                }
            }
        } else {
            if stream.len() < 1 + bpp {
                None
            } else {
                match rle_decode(stream.subrange(1 + bpp, stream.len() as int), bpp, npix - n) {
                    Some(rest) => Some(repeat_color(stream.subrange(1, 1 + bpp), n) + rest),
                    None => None,
                }
            }
        }
    }
}

/// A repeat run's pixels, replicated from its first sample, are exactly
/// the run's slice of the buffer.
proof fn lemma_repeat_color_slice(data: Seq<u8>, bpp: int, cur: int, npix: int, r: int)
    requires
        bpp >= 1,
        0 <= cur,
        cur + r <= npix,
        1 <= r,
        data.len() >= npix * bpp,
        forall|j: int|
            0 <= j < r ==> #[trigger] pix(data, bpp, cur + j) == pix(data, bpp, cur),
    ensures
        repeat_color(data.subrange(cur * bpp, cur * bpp + bpp), r) == data.subrange(
            cur * bpp,
            (cur + r) * bpp,
        ),
{
    assert((cur + r) * bpp <= npix * bpp && cur * bpp + r * bpp == (cur + r) * bpp && npix * bpp
        <= data.len() && 0 <= cur * bpp && bpp <= r * bpp) by (nonlinear_arith)
        requires
            bpp >= 1,
            0 <= cur,
            1 <= r,
            cur + r <= npix,
            data.len() >= npix * bpp,
    ;
    let color = data.subrange(cur * bpp, cur * bpp + bpp);
    assert(color.len() == bpp);
    let lhs = repeat_color(color, r);
    let rhs = data.subrange(cur * bpp, (cur + r) * bpp);
    assert forall|i: int| 0 <= i < r * bpp implies lhs[i] == rhs[i] by {
        crate::image::lemma_index_decompose(i, bpp, r);
        let j = i / bpp;
        let t = i % bpp;
        assert(pix(data, bpp, cur + j) == pix(data, bpp, cur));
        assert((cur + j) * bpp == cur * bpp + j * bpp && i == j * bpp + t) by (nonlinear_arith)
            requires
                i == (i / bpp) * bpp + i % bpp,
                j == i / bpp,
                t == i % bpp,
        ;
        assert(0 <= (cur + j) * bpp && (cur + j) * bpp + bpp <= npix * bpp && cur * bpp + bpp
            <= npix * bpp) by (nonlinear_arith)
            requires
                bpp >= 1,
                0 <= cur,
                0 <= j,
                cur + j < cur + r,
                cur + r <= npix,
        ;
        assert(pix(data, bpp, cur + j)[t] == data[(cur + j) * bpp + t]);
        assert(pix(data, bpp, cur)[t] == data[cur * bpp + t]);
        assert(lhs[i] == color[t]);
        assert(rhs[i] == data[cur * bpp + i]);
    }
    assert(lhs =~= rhs);
}

/// Decoding an encoded buffer, with anything after it, restores the
/// encoded pixels exactly.
pub proof fn lemma_rle_roundtrip(data: Seq<u8>, bpp: int, cur: int, npix: int, tail: Seq<u8>)
    requires
        bpp >= 1,
        0 <= cur <= npix,
        data.len() >= npix * bpp,
    ensures
        rle_decode(rle_encode(data, bpp, cur, npix) + tail, bpp, npix - cur) == Some(
            data.subrange(cur * bpp, npix * bpp),
        ),
    decreases npix - cur,
{
    assert(cur * bpp <= npix * bpp) by (nonlinear_arith)
        requires
            bpp >= 1,
            cur <= npix,
    ;
    if cur == npix {
        assert(rle_encode(data, bpp, cur, npix) + tail =~= tail);
        assert(data.subrange(cur * bpp, npix * bpp) =~= Seq::<u8>::empty());
    } else if cur + 1 < npix && pix_eq(data, bpp, cur) {
        let r = repeat_run(data, bpp, cur, npix, 128);
        lemma_repeat_run_bounds(data, bpp, cur, npix, 128);
        lemma_repeat_run_pixels(data, bpp, cur, npix, 128);
        assert(0 <= cur * bpp && cur * bpp + bpp <= npix * bpp && npix * bpp <= data.len())
            by (nonlinear_arith)
            requires
                bpp >= 1,
                0 <= cur,
                cur + 1 <= npix,
                data.len() >= npix * bpp,
        ;
        let enc = rle_encode(data, bpp, cur, npix);
        let s = enc + tail;
        let color = data.subrange(cur * bpp, cur * bpp + bpp);
        assert(s[0] == (r + 127) as u8);
        assert(s[0] as int == r + 127);
        let rest_enc = rle_encode(data, bpp, cur + r, npix);
        assert(enc == seq![(r + 127) as u8] + color + rest_enc);
        assert(s.len() >= 1 + bpp);
        assert(s.subrange(1, 1 + bpp) =~= color);
        assert(s.subrange(1 + bpp, s.len() as int) =~= rest_enc + tail);
        lemma_rle_roundtrip(data, bpp, cur + r, npix, tail);
        lemma_repeat_color_slice(data, bpp, cur, npix, r);
        assert((cur + r) * bpp <= npix * bpp && (cur + r) * bpp == cur * bpp + r * bpp && bpp <= r
            * bpp) by (nonlinear_arith)
            requires
                bpp >= 1,
                1 <= r,
                cur + r <= npix,
        ;
        assert(repeat_color(color, r) + data.subrange((cur + r) * bpp, npix * bpp) =~= data.subrange(
            cur * bpp,
            npix * bpp,
        ));
    } else {
        let r = raw_run(data, bpp, cur, npix, 128);
        lemma_raw_run_bounds(data, bpp, cur, npix, 128);
        assert((cur + r) * bpp - cur * bpp == r * bpp && (cur + r) * bpp <= npix * bpp && 0 <= cur
            * bpp && bpp <= r * bpp && npix * bpp <= data.len()) by (nonlinear_arith)
            requires
                bpp >= 1,
                0 <= cur,
                1 <= r,
                cur + r <= npix,
                data.len() >= npix * bpp,
        ;
        let enc = rle_encode(data, bpp, cur, npix);
        let s = enc + tail;
        let chunk = data.subrange(cur * bpp, (cur + r) * bpp);
        assert(chunk.len() == r * bpp);
        assert(s[0] == (r - 1) as u8);
        assert(s[0] as int == r - 1);
        let rest_enc = rle_encode(data, bpp, cur + r, npix);
        assert(enc == seq![(r - 1) as u8] + chunk + rest_enc);
        assert(s.len() >= 1 + r * bpp);
        assert(s.subrange(1, 1 + r * bpp) =~= chunk);
        assert(s.subrange(1 + r * bpp, s.len() as int) =~= rest_enc + tail);
        lemma_rle_roundtrip(data, bpp, cur + r, npix, tail);
        assert(chunk + data.subrange((cur + r) * bpp, npix * bpp) =~= data.subrange(
            cur * bpp,
            npix * bpp,
        ));
    }
}

/// Pixel `p` of an `npix`-pixel buffer occupies bytes `p * bpp` up to but
/// not including `(p + 1) * bpp`, all inside the buffer.
pub(crate) proof fn lemma_pix_range(bpp: int, p: int, npix: int, len: int)
    requires
        bpp >= 1,
        0 <= p < npix,
        len >= npix * bpp,
    ensures
        0 <= p * bpp,
        p * bpp + bpp == (p + 1) * bpp,
        (p + 1) * bpp <= npix * bpp,
        p * bpp + bpp <= len,
{
    assert(0 <= p * bpp && p * bpp + bpp == (p + 1) * bpp && (p + 1) * bpp <= npix * bpp)
        by (nonlinear_arith)
        requires
            bpp >= 1,
            0 <= p < npix,
    ;
}

impl Image {
    /// Whether pixels `p` and `q` hold the same sample, byte for byte.
    fn pixels_equal(&self, p: usize, q: usize) -> (r: bool)
        requires
            self.wf(),
            (p + 1) * self.bytespp <= self.data@.len(),
            (q + 1) * self.bytespp <= self.data@.len(),
        ensures
            r == (pix(self.data@, self.bytespp as int, p as int) == pix(
                self.data@,
                self.bytespp as int,
                q as int,
            )),
    {
        let bpp = self.bytespp;
        let n = self.data.len();
        proof {
            assert(p * bpp + bpp == (p + 1) * bpp && q * bpp + bpp == (q + 1) * bpp && 0 <= p * bpp
                && 0 <= q * bpp) by (nonlinear_arith);
        }
        let po = p * bpp;
        let qo = q * bpp;
        let ghost pp = pix(self.data@, bpp as int, p as int);
        let ghost qp = pix(self.data@, bpp as int, q as int);
        let mut t: usize = 0;
        while t < bpp
            invariant
                t <= bpp,
                n == self.data@.len(),
                bpp == self.bytespp,
                po + bpp <= n,
                qo + bpp <= n,
                po == p * bpp,
                qo == q * bpp,
                pp == pix(self.data@, bpp as int, p as int),
                qp == pix(self.data@, bpp as int, q as int),
                pp.len() == bpp,
                qp.len() == bpp,
                forall|u: int| 0 <= u < t ==> pp[u] == qp[u],
            decreases bpp - t,
        {
            let b1 = self.data[po + t];
            let b2 = self.data[qo + t];
            proof {
                assert(pp[t as int] == self.data@[po + t]);
                assert(qp[t as int] == self.data@[qo + t]);
            }
            if b1 != b2 {
                return false;
            }
            t += 1;
        }
        proof {
            assert(pp =~= qp);
        }
        true
    }

    /// Append the run-length encoding of the whole pixel array: repeat
    /// packets for stretches of equal samples, raw packets elsewhere, each
    /// at most 128 pixels.
    pub(crate) fn dump_rle_data(&self, out: &mut Vec<u8>)
        requires
            self.wf(),
        ensures
            final(out)@ == old(out)@ + rle_encode(
                self.data@,
                self.bytespp as int,
                0,
                (self.width * self.height) as int,
            ),
    {
        let bpp = self.bytespp;
        proof {
            assert(self.width * self.height * bpp == (self.width * self.height) * bpp && self.width
                * self.height <= self.width * self.height * bpp) by (nonlinear_arith)
                requires
                    bpp >= 1,
                    self.width >= 1,
                    self.height >= 1,
            ;
        }
        let n = self.data.len();
        let npix = self.width * self.height;
        let ghost data = self.data@;
        let ghost bppi = bpp as int;
        let ghost npixi = npix as int;
        let mut curpix: usize = 0;
        while curpix < npix
            invariant
                self.wf(),
                bpp == self.bytespp,
                npix == self.width * self.height,
                data == self.data@,
                data.len() == npixi * bppi,
                data.len() == n,
                bppi == bpp as int,
                npixi == npix as int,
                curpix <= npix,
                out@ + rle_encode(data, bppi, curpix as int, npixi) == old(out)@ + rle_encode(
                    data,
                    bppi,
                    0,
                    npixi,
                ),
            decreases npix - curpix,
        {
            let ghost curi = curpix as int;
            let ghost out_at_chunk = out@;
            proof {
                lemma_pix_range(bppi, curi, npixi, data.len() as int);
                if curi + 1 < npixi {
                    lemma_pix_range(bppi, curi + 1, npixi, data.len() as int);
                }
            }
            let repeat = curpix + 1 < npix && self.pixels_equal(curpix, curpix + 1);
            if repeat {
                let mut r: usize = 1;
                let mut done = false;
                while !done && curpix + r < npix && r < 128
                    invariant
                        self.wf(),
                        bpp == self.bytespp,
                        data == self.data@,
                        data.len() == npixi * bppi,
                        data.len() == n,
                        bppi == bpp as int,
                        npixi == npix as int,
                        curi == curpix as int,
                        0 <= curi < npixi,
                        1 <= r <= 128,
                        curpix + r <= npix,
                        repeat_run(data, bppi, curi, npixi, 128) == if done {
                            r as int
                        } else {
                            r - 1 + repeat_run(data, bppi, curi + (r - 1), npixi, 129 - r)
                        },
                    decreases 128 - r + (if done {
                        0int
                    } else {
                        2int
                    }),
                {
                    proof {
                        lemma_pix_range(bppi, curi + r, npixi, data.len() as int);
                        lemma_pix_range(bppi, curi + (r - 1), npixi, data.len() as int);
                    }
                    if self.pixels_equal(curpix + r - 1, curpix + r) {
                        proof {
                            assert(pix_eq(data, bppi, curi + (r - 1)));
                            assert(repeat_run(data, bppi, curi + (r - 1), npixi, 129 - r) == 1
                                + repeat_run(data, bppi, curi + r, npixi, 128 - r));
                        }
                        r += 1;
                    } else {
                        proof {
                            assert(repeat_run(data, bppi, curi + (r - 1), npixi, 129 - r) == 1);
                        }
                        done = true;
                    }
                }
                proof {
                    if !done {
                        assert(repeat_run(data, bppi, curi + (r - 1), npixi, 129 - r) == 1);
                    }
                    assert(repeat_run(data, bppi, curi, npixi, 128) == r as int);
                    lemma_pix_range(bppi, curi, npixi, data.len() as int);
                }
                out.push((r + 127) as u8);
                let base = curpix * bpp;
                let mut t: usize = 0;
                while t < bpp
                    invariant
                        self.wf(),
                        bpp == self.bytespp,
                        data == self.data@,
                        data.len() == n,
                        bppi == bpp as int,
                        base == curi * bppi,
                        base + bppi <= n,
                        t <= bpp,
                        1 <= r <= 128,
                        out@ == out_at_chunk + seq![(r + 127) as u8] + data.subrange(
                            base as int,
                            base + t,
                        ),
                    decreases bpp - t,
                {
                    out.push(self.data[base + t]);
                    proof {
                        assert(out@ =~= out_at_chunk + seq![(r + 127) as u8] + data.subrange(
                            base as int,
                            base + t + 1,
                        ));
                    }
                    t += 1;
                }
                proof {
                    let ri = r as int;
                    assert(rle_encode(data, bppi, curi, npixi) == seq![(ri + 127) as u8]
                        + data.subrange(curi * bppi, curi * bppi + bppi) + rle_encode(
                        data,
                        bppi,
                        curi + ri,
                        npixi,
                    ));
                    assert(out@ + rle_encode(data, bppi, curi + ri, npixi) =~= out_at_chunk
                        + rle_encode(data, bppi, curi, npixi));
                    assert(out@ + rle_encode(data, bppi, curi + ri, npixi) =~= old(out)@
                        + rle_encode(data, bppi, 0, npixi));
                }
                curpix += r;
            } else {
                let mut r: usize = 1;
                let mut done = false;
                while !done && curpix + r < npix && r < 128
                    invariant
                        self.wf(),
                        bpp == self.bytespp,
                        data == self.data@,
                        data.len() == npixi * bppi,
                        data.len() == n,
                        bppi == bpp as int,
                        npixi == npix as int,
                        curi == curpix as int,
                        0 <= curi < npixi,
                        1 <= r <= 128,
                        curpix + r <= npix,
                        curi + 1 >= npixi || !pix_eq(data, bppi, curi),
                        raw_run(data, bppi, curi, npixi, 128) == if done {
                            r as int
                        } else {
                            r - 1 + raw_run(data, bppi, curi + (r - 1), npixi, 129 - r)
                        },
                    decreases 128 - r + (if done {
                        0int
                    } else {
                        2int
                    }),
                {
                    proof {
                        lemma_pix_range(bppi, curi + r, npixi, data.len() as int);
                        lemma_pix_range(bppi, curi + (r - 1), npixi, data.len() as int);
                    }
                    if self.pixels_equal(curpix + r - 1, curpix + r) {
                        proof {
                            assert(r >= 2);
                            assert(raw_run(data, bppi, curi + (r - 1), npixi, 129 - r) == 0);
                        }
                        r -= 1;
                        done = true;
                    } else {
                        proof {
                            assert(raw_run(data, bppi, curi + (r - 1), npixi, 129 - r) == 1
                                + raw_run(data, bppi, curi + r, npixi, 128 - r));
                        }
                        r += 1;
                    }
                }
                let ghost ri = r as int;
                proof {
                    if !done {
                        assert(raw_run(data, bppi, curi + (r - 1), npixi, 129 - r) == 1);
                    }
                    assert(raw_run(data, bppi, curi, npixi, 128) == ri);
                    assert(ri >= 1);
                    lemma_pix_range(bppi, curi, npixi, data.len() as int);
                    assert((curi + ri) * bppi == curi * bppi + ri * bppi && (curi + ri) * bppi
                        <= npixi * bppi && bppi <= ri * bppi && ri * bppi <= 512)
                        by (nonlinear_arith)
                        requires
                            1 <= bppi <= 4,
                            0 <= curi,
                            1 <= ri <= 128,
                            curi + ri <= npixi,
                    ;
                }
                out.push((r - 1) as u8);
                let base = curpix * bpp;
                let nb = r * bpp;
                let mut t: usize = 0;
                while t < nb
                    invariant
                        self.wf(),
                        bpp == self.bytespp,
                        data == self.data@,
                        data.len() == n,
                        bppi == bpp as int,
                        ri == r as int,
                        base == curi * bppi,
                        nb == ri * bppi,
                        base + nb <= n,
                        t <= nb,
                        1 <= r <= 128,
                        out@ == out_at_chunk + seq![(r - 1) as u8] + data.subrange(
                            base as int,
                            base + t,
                        ),
                    decreases nb - t,
                {
                    out.push(self.data[base + t]);
                    proof {
                        assert(out@ =~= out_at_chunk + seq![(r - 1) as u8] + data.subrange(
                            base as int,
                            base + t + 1,
                        ));
                    }
                    t += 1;
                }
                proof {
                    assert(rle_encode(data, bppi, curi, npixi) == seq![(ri - 1) as u8]
                        + data.subrange(curi * bppi, (curi + ri) * bppi) + rle_encode(
                        data,
                        bppi,
                        curi + ri,
                        npixi,
                    ));
                    assert(out@ + rle_encode(data, bppi, curi + ri, npixi) =~= out_at_chunk
                        + rle_encode(data, bppi, curi, npixi));
                    assert(out@ + rle_encode(data, bppi, curi + ri, npixi) =~= old(out)@
                        + rle_encode(data, bppi, 0, npixi));
                }
                curpix += r;
            }
        }
        proof {
            assert(out@ + rle_encode(data, bppi, npixi, npixi) =~= out@);
            assert(out@ =~= old(out)@ + rle_encode(data, bppi, 0, npixi));
        }
    }
}

/// Replicating a sample once more appends one copy of it.
proof fn lemma_repeat_color_extend(color: Seq<u8>, j: int)
    requires
        color.len() >= 1,
        j >= 0,
    ensures
        repeat_color(color, j + 1) == repeat_color(color, j) + color,
{
    let ln = color.len() as int;
    assert((j + 1) * ln == j * ln + ln && 0 <= j * ln) by (nonlinear_arith)
        requires
            j >= 0,
            ln >= 1,
    ;
    let lhs = repeat_color(color, j + 1);
    let rhs = repeat_color(color, j) + color;
    assert forall|i: int| 0 <= i < (j + 1) * ln implies lhs[i] == rhs[i] by {
        if i < j * ln {
        } else {
            let t = i - j * ln;
            vstd::arithmetic::div_mod::lemma_fundamental_div_mod_converse_mod(i, ln, j, t);
            assert(lhs[i] == color[t]);
        }
    }
    assert(lhs =~= rhs);
}

impl Image {
    /// Decode a run-length payload of exactly `w * h` pixels read from
    /// `stream` at `start`: raw packets copy their samples verbatim,
    /// repeat packets replicate one sample.  Fails with `InvalidFormat`
    /// exactly when the stream ends early or a packet would overrun the
    /// pixel count.
    pub(crate) fn load_rle_data(
        w: usize,
        h: usize,
        bpp: usize,
        stream: &[u8],
        start: usize,
    ) -> (r: Result<Vec<u8>, TgaError>)
        requires
            1 <= bpp <= 4,
            w >= 1,
            h >= 1,
            w * h * bpp <= usize::MAX,
            start <= stream@.len(),
        ensures
            match rle_decode(
                stream@.subrange(start as int, stream@.len() as int),
                bpp as int,
                (w * h) as int,
            ) {
                Some(d) => r is Ok && r->Ok_0@ == d,
                None => r == Err::<Vec<u8>, TgaError>(TgaError::InvalidFormat),
            },
    {
        proof {
            assert(w * h <= w * h * bpp && w * h * bpp == (w * h) * bpp) by (nonlinear_arith)
                requires
                    bpp >= 1,
                    w >= 1,
                    h >= 1,
            ;
        }
        let npix = w * h;
        let slen = stream.len();
        let ghost svw = stream@;
        let ghost bppi = bpp as int;
        let ghost npixi = npix as int;
        let ghost goal = rle_decode(svw.subrange(start as int, slen as int), bppi, npixi);
        let mut data: Vec<u8> = Vec::new();
        let mut curpix: usize = 0;
        let mut pos: usize = start;
        while curpix < npix
            invariant
                1 <= bppi <= 4,
                bppi == bpp as int,
                npixi == npix as int,
                npixi == w * h,
                svw == stream@,
                slen == svw.len(),
                start <= pos <= slen,
                curpix <= npix,
                goal == rle_decode(svw.subrange(start as int, slen as int), bppi, npixi),
                goal == (match rle_decode(
                    svw.subrange(pos as int, slen as int),
                    bppi,
                    npixi - curpix,
                ) {
                    Some(rest) => Some(data@ + rest),
                    None => None::<Seq<u8>>,
                }),
            decreases npix - curpix,
        {
            let ghost suffix = svw.subrange(pos as int, slen as int);
            let ghost remaining = npixi - curpix;
            if pos >= slen {
                proof {
                    assert(rle_decode(suffix, bppi, remaining) is None);
                }
                return Err(TgaError::InvalidFormat);
            }
            let chunkheader = stream[pos];
            proof {
                assert(suffix[0] == chunkheader);
            }
            if chunkheader < 128 {
                let cnt = chunkheader as usize + 1;
                if cnt > npix - curpix {
                    proof {
                        assert(rle_decode(suffix, bppi, remaining) is None);
                    }
                    return Err(TgaError::InvalidFormat);
                }
                proof {
                    assert(cnt * bppi <= 512 && 0 <= cnt * bppi) by (nonlinear_arith)
                        requires
                            1 <= bppi <= 4,
                            0 <= cnt <= 128,
                    ;
                }
                let nb = cnt * bpp;
                if slen - (pos + 1) < nb {
                    proof {
                        assert(suffix.len() < 1 + cnt * bppi);
                        assert(rle_decode(suffix, bppi, remaining) is None);
                    }
                    return Err(TgaError::InvalidFormat);
                }
                let ghost data_before = data@;
                let mut t: usize = 0;
                while t < nb
                    invariant
                        svw == stream@,
                        slen == svw.len(),
                        pos + 1 + nb <= slen,
                        t <= nb,
                        data@ == data_before + svw.subrange(pos + 1, pos + 1 + t),
                    decreases nb - t,
                {
                    data.push(stream[pos + 1 + t]);
                    proof {
                        assert(data@ =~= data_before + svw.subrange(pos + 1, pos + 1 + t + 1));
                    }
                    t += 1;
                }
                proof {
                    let chunk = suffix.subrange(1, 1 + cnt * bppi);
                    assert(chunk =~= svw.subrange(pos + 1, pos + 1 + nb));
                    let newsuffix = svw.subrange(pos + 1 + nb, slen as int);
                    assert(suffix.subrange(1 + cnt * bppi, suffix.len() as int) =~= newsuffix);
                    let dnew = rle_decode(newsuffix, bppi, remaining - cnt);
                    assert(rle_decode(suffix, bppi, remaining) == (match dnew {
                        Some(rest) => Some(chunk + rest),
                        None => None::<Seq<u8>>,
                    }));
                    if dnew is Some {
                        assert(data_before + (chunk + dnew->Some_0) =~= (data_before + chunk)
                            + dnew->Some_0);
                    }
                }
                pos += 1 + nb;
                curpix += cnt;
            } else {
                let cnt = chunkheader as usize - 127;
                if cnt > npix - curpix {
                    proof {
                        assert(rle_decode(suffix, bppi, remaining) is None);
                    }
                    return Err(TgaError::InvalidFormat);
                }
                if slen - (pos + 1) < bpp {
                    proof {
                        assert(suffix.len() < 1 + bppi);
                        assert(rle_decode(suffix, bppi, remaining) is None);
                    }
                    return Err(TgaError::InvalidFormat);
                }
                let ghost data_before = data@;
                let ghost colorseq = svw.subrange(pos + 1, pos + 1 + bppi);
                let mut j: usize = 0;
                while j < cnt
                    invariant
                        svw == stream@,
                        slen == svw.len(),
                        bppi == bpp as int,
                        1 <= bppi <= 4,
                        pos + 1 + bpp <= slen,
                        j <= cnt,
                        colorseq == svw.subrange(pos + 1, pos + 1 + bppi),
                        data@ == data_before + repeat_color(colorseq, j as int),
                    decreases cnt - j,
                {
                    let ghost data_round = data@;
                    let mut t: usize = 0;
                    while t < bpp
                        invariant
                            svw == stream@,
                            slen == svw.len(),
                            bppi == bpp as int,
                            pos + 1 + bpp <= slen,
                            t <= bpp,
                            data@ == data_round + svw.subrange(pos + 1, pos + 1 + t),
                        decreases bpp - t,
                    {
                        data.push(stream[pos + 1 + t]);
                        proof {
                            assert(data@ =~= data_round + svw.subrange(pos + 1, pos + 1 + t + 1));
                        }
                        t += 1;
                    }
                    proof {
                        lemma_repeat_color_extend(colorseq, j as int);
                        assert(data@ =~= data_before + repeat_color(colorseq, j + 1));
                    }
                    j += 1;
                }
                proof {
                    let newsuffix = svw.subrange(pos + 1 + bppi, slen as int);
                    assert(suffix.subrange(1, 1 + bppi) =~= colorseq);
                    assert(suffix.subrange(1 + bppi, suffix.len() as int) =~= newsuffix);
                    let dnew = rle_decode(newsuffix, bppi, remaining - cnt);
                    assert(rle_decode(suffix, bppi, remaining) == (match dnew {
                        Some(rest) => Some(repeat_color(colorseq, cnt as int) + rest),
                        None => None::<Seq<u8>>,
                    }));
                    if dnew is Some {
                        assert(data_before + (repeat_color(colorseq, cnt as int) + dnew->Some_0)
                            =~= (data_before + repeat_color(colorseq, cnt as int)) + dnew->Some_0);
                    }
                }
                pos += 1 + bpp;
                curpix += cnt;
            }
        }
        proof {
            assert(data@ + Seq::<u8>::empty() =~= data@);
        }
        Ok(data)
    }
}

/// A run-length payload that decodes in full holds exactly `npix` samples.
pub proof fn lemma_rle_decode_len(stream: Seq<u8>, bpp: int, npix: int)
    requires
        bpp >= 1,
        npix >= 0,
    ensures
        rle_decode(stream, bpp, npix) is Some ==> rle_decode(stream, bpp, npix)->Some_0.len()
            == npix * bpp,
        npix == 0 ==> rle_decode(stream, bpp, npix) is Some,
    decreases npix,
{
    if npix <= 0 {
        assert(npix * bpp == 0) by (nonlinear_arith)
            requires
                npix == 0,
        ;
    } else if stream.len() >= 1 {
        let h = stream[0] as int;
        let n = if h < 128 {
            h + 1
        } else {
            h - 127
        };
        if n <= npix {
            if h < 128 {
                if stream.len() >= 1 + n * bpp {
                    lemma_rle_decode_len(
                        stream.subrange(1 + n * bpp, stream.len() as int),
                        bpp,
                        npix - n,
                    );
                    assert(n * bpp + (npix - n) * bpp == npix * bpp) by (nonlinear_arith);
                }
            } else {
                if stream.len() >= 1 + bpp {
                    lemma_rle_decode_len(
                        stream.subrange(1 + bpp, stream.len() as int),
                        bpp,
                        npix - n,
                    );
                    assert(n * bpp + (npix - n) * bpp == npix * bpp) by (nonlinear_arith);
                }
            }
        }
    }
}

/// The fixed 26-byte trailer of an encoded image: the zeroed developer
/// and extension area references, then the signature and its NUL.
pub open spec fn trailer_bytes() -> Seq<u8> {
    seq![
        0u8,
        0u8,
        0u8,
        0u8,
        0u8,
        0u8,
        0u8,
        0u8,
        84u8,
        82u8,
        85u8,
        69u8,
        86u8,
        73u8,
        83u8,
        73u8,
        79u8,
        78u8,
        45u8,
        88u8,
        70u8,
        73u8,
        76u8,
        69u8,
        46u8,
        0u8,
    ]
}

/// Append the fixed trailer.
fn push_trailer(out: &mut Vec<u8>)
    ensures
        final(out)@ == old(out)@ + trailer_bytes(),
{
    out.push(0);
    out.push(0);
    out.push(0);
    out.push(0);
    out.push(0);
    out.push(0);
    out.push(0);
    out.push(0);
    out.push(84);
    out.push(82);
    out.push(85);
    out.push(69);
    out.push(86);
    out.push(73);
    out.push(83);
    out.push(73);
    out.push(79);
    out.push(78);
    out.push(45);
    out.push(88);
    out.push(70);
    out.push(73);
    out.push(76);
    out.push(69);
    out.push(46);
    out.push(0);
    proof {
        assert(out@ =~= old(out)@ + trailer_bytes());
    }
}

/// The data type code a written image declares: 3 or 2 for a raw
/// grayscale or color payload, 11 or 10 for a run-length one.
pub open spec fn data_type_code_for(bpp: int, rle: bool) -> u8 {
    if bpp == 1 {
        if rle {
            11u8
        } else {
            3u8
        }
    } else {
        if rle {
            10u8
        } else {
            2u8
        }
    }
}

/// The header a written image carries: its dimensions and pixel depth,
/// the data type code, and a top-left origin.
pub open spec fn encode_header(w: int, h: int, bpp: int, rle: bool) -> Header {
    Header {
        id_length: 0,
        color_map_type: 0,
        data_type_code: data_type_code_for(bpp, rle),
        color_map_origin: 0,
        color_map_length: 0,
        color_map_depth: 0,
        x_origin: 0,
        y_origin: 0,
        width: w as i16,
        height: h as i16,
        bits_per_pixel: (bpp * 8) as u8,
        image_descriptor: 0x20,
    }
}

/// The whole encoded stream of a buffer: header, payload (raw bytes or
/// their run-length encoding), trailer.
pub open spec fn spec_encode(w: int, h: int, bpp: int, data: Seq<u8>, rle: bool) -> Seq<u8> {
    header_bytes(encode_header(w, h, bpp, rle)) + (if rle {
        rle_encode(data, bpp, 0, w * h)
    } else {
        data
    }) + trailer_bytes()
}

/// What decoding a stream yields: the width, height and pixel depth the
/// header declares and the pixel bytes after the origin corrections, or
/// nothing where the header is invalid, the data type code unsupported,
/// or the payload malformed.
pub open spec fn spec_decode(bytes: Seq<u8>) -> Option<(int, int, int, Seq<u8>)> {
    if bytes.len() < HEADER_LEN {
        None
    } else {
        let hdr = parse_header(bytes);
        let w = hdr.width as int;
        let h = hdr.height as int;
        let bpp = hdr.bits_per_pixel as int / 8;
        if w <= 0 || h <= 0 || !(bpp == 1 || bpp == 3 || bpp == 4) {
            None
        } else {
            let payload = if hdr.data_type_code == 2 || hdr.data_type_code == 3 {
                if bytes.len() >= 18 + w * h * bpp {
                    Some(bytes.subrange(18, 18 + w * h * bpp))
                } else {
                    None
                }
            } else if hdr.data_type_code == 10 || hdr.data_type_code == 11 {
                rle_decode(bytes.subrange(18, bytes.len() as int), bpp, w * h)
            } else {
                None
            };
            match payload {
                None => None,
                Some(d) => {
                    let d1 = if hdr.image_descriptor & 0x20 == 0 {
                        flip_v_seq(d, w, h, bpp)
                    } else {
                        d
                    };
                    let d2 = if hdr.image_descriptor & 0x10 != 0 {
                        flip_h_seq(d1, w, h, bpp)
                    } else {
                        d1
                    };
                    Some((w, h, bpp, d2))
                },
            }
        }
    }
}

impl Image {
    /// Serialize the buffer to the binary image format: the 18-byte
    /// header, the payload (raw, or run-length encoded when `rle` is
    /// set), and the fixed trailer.  The caller writes the bytes out.
    pub fn write_tga_file(&self, rle: bool) -> (out: Vec<u8>)
        requires
            self.wf(),
            self.width <= 32767,
            self.height <= 32767,
        ensures
            out@ == spec_encode(
                self.width as int,
                self.height as int,
                self.bytespp as int,
                self.data@,
                rle,
            ),
    {
        let header = Header {
            id_length: 0,
            color_map_type: 0,
            data_type_code: if self.bytespp == 1 {
                if rle {
                    11
                } else {
                    3
                }
            } else {
                if rle {
                    10
                } else {
                    2
                }
            },
            color_map_origin: 0,
            color_map_length: 0,
            color_map_depth: 0,
            x_origin: 0,
            y_origin: 0,
            width: self.width as i16,
            height: self.height as i16,
            bits_per_pixel: (self.bytespp * 8) as u8,
            image_descriptor: 0x20,
        };
        let mut out = header.to_stream();
        if !rle {
            out.extend_from_slice(self.data.as_slice());
        } else {
            self.dump_rle_data(&mut out);
        }
        push_trailer(&mut out);
        proof {
            assert(header == encode_header(
                self.width as int,
                self.height as int,
                self.bytespp as int,
                rle,
            ));
            assert(out@ =~= spec_encode(
                self.width as int,
                self.height as int,
                self.bytespp as int,
                self.data@,
                rle,
            ));
        }
        out
    }

    /// Parse an encoded stream into a pixel buffer: validate the header,
    /// read the raw or run-length payload, and normalize the origin to
    /// top-left according to the image descriptor bits.  Fails with
    /// `InvalidFormat` exactly when the stream does not decode.
    pub fn read_tga_file(stream: &[u8]) -> (r: Result<Image, TgaError>)
        ensures
            match spec_decode(stream@) {
                Some(t) => {
                    &&& r is Ok
                    &&& r->Ok_0.wf()
                    &&& r->Ok_0.width as int == t.0
                    &&& r->Ok_0.height as int == t.1
                    &&& r->Ok_0.bytespp as int == t.2
                    &&& r->Ok_0.data@ == t.3
                },
                None => r == Err::<Image, TgaError>(TgaError::InvalidFormat),
            },
    {
        let header = match Header::from_stream(stream) {
            Ok(h) => h,
            Err(e) => {
                return Err(e);
            },
        };
        let bpp8 = header.bits_per_pixel >> 3;
        proof {
            let bits = header.bits_per_pixel;
            assert(bits >> 3 == bits / 8) by (bit_vector);
        }
        if header.width <= 0 || header.height <= 0 || !(bpp8 == 1 || bpp8 == 3 || bpp8 == 4) {
            return Err(TgaError::InvalidFormat);
        }
        let w = header.width as usize;
        let h = header.height as usize;
        let bpp = bpp8 as usize;
        proof {
            assert(w * h * bpp <= 0xffff_fffc && w * h <= w * h * bpp && w * h * bpp == (w * h)
                * bpp) by (nonlinear_arith)
                requires
                    1 <= w <= 32767,
                    1 <= h <= 32767,
                    1 <= bpp <= 4,
            ;
        }
        let nbytes = w * h * bpp;
        let data: Vec<u8> = if header.data_type_code == 2 || header.data_type_code == 3 {
            let slen = stream.len();
            if slen - 18 < nbytes {
                return Err(TgaError::InvalidFormat);
            }
            let mut d: Vec<u8> = Vec::with_capacity(nbytes);
            let mut t: usize = 0;
            while t < nbytes
                invariant
                    t <= nbytes,
                    slen == stream@.len(),
                    18 + nbytes <= slen,
                    d@ == stream@.subrange(18, 18 + t),
                decreases nbytes - t,
            {
                d.push(stream[18 + t]);
                proof {
                    assert(d@ =~= stream@.subrange(18, 18 + t + 1));
                }
                t += 1;
            }
            d
        } else if header.data_type_code == 10 || header.data_type_code == 11 {
            match Image::load_rle_data(w, h, bpp, stream, 18) {
                Ok(d) => d,
                Err(e) => {
                    return Err(e);
                },
            }
        } else {
            return Err(TgaError::InvalidFormat);
        };
        proof {
            lemma_rle_decode_len(
                stream@.subrange(18, stream@.len() as int),
                bpp as int,
                (w * h) as int,
            );
        }
        let mut result = Image { data: data, width: w, height: h, bytespp: bpp };
        if header.image_descriptor & 0x20 == 0 {
            result.flip_vertically();
        }
        if header.image_descriptor & 0x10 != 0 {
            result.flip_horizontally();
        }
        Ok(result)
    }
}

/// Where every pixel holds one and the same sample, each repeat run takes
/// as many pixels as it may: the packet cap, or what is left.
proof fn lemma_repeat_run_uniform(data: Seq<u8>, bpp: int, c: int, npix: int, cap: int)
    requires
        bpp >= 1,
        cap >= 1,
        0 <= c < npix,
        forall|p: int| 0 <= p < npix ==> #[trigger] pix(data, bpp, p) == pix(data, bpp, 0),
    ensures
        repeat_run(data, bpp, c, npix, cap) == if cap <= npix - c {
            cap
        } else {
            npix - c
        },
    decreases cap,
{
    if cap > 1 && c + 1 < npix {
        assert(pix(data, bpp, c) == pix(data, bpp, 0));
        assert(pix(data, bpp, c + 1) == pix(data, bpp, 0));
        assert(pix_eq(data, bpp, c));
        lemma_repeat_run_uniform(data, bpp, c + 1, npix, cap - 1);
    }
}

/// The size of the run-length encoding of a uniform buffer, from pixel
/// `cur` on: one packet of header byte plus one sample per 128 pixels.
proof fn lemma_rle_uniform_size_from(data: Seq<u8>, bpp: int, cur: int, npix: int)
    requires
        bpp >= 1,
        0 <= cur < npix,
        data.len() >= npix * bpp,
        forall|p: int| 0 <= p < npix ==> #[trigger] pix(data, bpp, p) == pix(data, bpp, 0),
    ensures
        rle_encode(data, bpp, cur, npix).len() == ((npix - cur + 127) / 128) * (1 + bpp),
    decreases npix - cur,
{
    let rem = npix - cur;
    lemma_pix_range(bpp, cur, npix, data.len() as int);
    if cur + 1 >= npix {
        // a single raw packet of one pixel
        assert(raw_run(data, bpp, cur, npix, 128) == 1);
        assert(rle_encode(data, bpp, cur + 1, npix) =~= Seq::<u8>::empty());
        assert(rle_encode(data, bpp, cur, npix).len() == 1 + bpp);
        vstd::arithmetic::div_mod::lemma_fundamental_div_mod_converse_div(
            npix - cur + 127,
            128,
            1,
            0,
        );
        assert(npix - cur + 127 == 1 * 128 + 0);
        assert((npix - cur + 127) / 128 == 1);
        assert(rle_encode(data, bpp, cur, npix).len() == ((npix - cur + 127) / 128) * (1 + bpp));
    } else {
        assert(pix(data, bpp, cur) == pix(data, bpp, 0));
        assert(pix(data, bpp, cur + 1) == pix(data, bpp, 0));
        assert(pix_eq(data, bpp, cur));
        lemma_repeat_run_uniform(data, bpp, cur, npix, 128);
        let r = repeat_run(data, bpp, cur, npix, 128);
        assert(rle_encode(data, bpp, cur, npix).len() == 1 + bpp + rle_encode(
            data,
            bpp,
            cur + r,
            npix,
        ).len());
        if r == rem {
            assert(rle_encode(data, bpp, cur + r, npix) =~= Seq::<u8>::empty());
            assert(rem <= 128);
            assert((rem + 127) / 128 == 1) by {
                vstd::arithmetic::div_mod::lemma_fundamental_div_mod_converse_div(
                    rem + 127,
                    128,
                    1,
                    rem - 1,
                );
            }
            assert(rle_encode(data, bpp, cur, npix).len() == ((npix - cur + 127) / 128) * (1
                + bpp));
        } else {
            assert(r == 128 && rem > 128);
            lemma_rle_uniform_size_from(data, bpp, cur + 128, npix);
            assert(rle_encode(data, bpp, cur + 128, npix).len() == ((rem - 128 + 127) / 128) * (1
                + bpp));
            assert((rem + 127) / 128 == 1 + (rem - 1) / 128) by {
                vstd::arithmetic::div_mod::lemma_div_plus_one(rem - 1, 128);
            }
            assert(((rem - 1) / 128 + 1) * (1 + bpp) == (rem - 1) / 128 * (1 + bpp) + (1 + bpp))
                by (nonlinear_arith);
            assert(rle_encode(data, bpp, cur, npix).len() == ((npix - cur + 127) / 128) * (1
                + bpp));
        }
    }
}

/// The run-length encoding of a buffer that repeats one sample for all
/// its pixels is one packet of `1 + bpp` bytes per 128 pixels; with four
/// bytes per pixel and more than five pixels it is strictly smaller than
/// the raw payload.
pub proof fn lemma_rle_uniform_size(data: Seq<u8>, bpp: int, npix: int)
    requires
        bpp >= 1,
        npix >= 1,
        data.len() == npix * bpp,
        forall|p: int| 0 <= p < npix ==> #[trigger] pix(data, bpp, p) == pix(data, bpp, 0),
    ensures
        rle_encode(data, bpp, 0, npix).len() == ((npix + 127) / 128) * (1 + bpp),
        npix > 5 && bpp == 4 ==> rle_encode(data, bpp, 0, npix).len() < npix * bpp,
{
    lemma_rle_uniform_size_from(data, bpp, 0, npix);
    if npix > 5 && bpp == 4 {
        let q = (npix + 127) / 128;
        vstd::arithmetic::div_mod::lemma_fundamental_div_mod(npix + 127, 128);
        vstd::arithmetic::div_mod::lemma_mod_division_less_than_divisor(npix + 127, 128);
        assert(q * 5 < npix * 4) by (nonlinear_arith)
            requires
                npix + 127 == 128 * q + (npix + 127) % 128,
                0 <= (npix + 127) % 128 < 128,
                npix > 5,
        ;
    }
}

/// Decoding what was encoded gives the buffer back: the dimensions and
/// pixel depth survive the header, the payload survives raw or
/// run-length, and the declared top-left origin means no correction is
/// applied on the way in.
pub proof fn lemma_encode_decode(w: int, h: int, bpp: int, data: Seq<u8>, rle: bool)
    requires
        1 <= w <= 32767,
        1 <= h <= 32767,
        bpp == 1 || bpp == 3 || bpp == 4,
        data.len() == w * h * bpp,
    ensures
        spec_decode(spec_encode(w, h, bpp, data, rle)) == Some((w, h, bpp, data)),
{
    let hdr = encode_header(w, h, bpp, rle);
    let payload = if rle {
        rle_encode(data, bpp, 0, w * h)
    } else {
        data
    };
    let bytes = spec_encode(w, h, bpp, data, rle);
    lemma_header_roundtrip(hdr, payload + trailer_bytes());
    assert(bytes =~= header_bytes(hdr) + (payload + trailer_bytes()));
    assert(parse_header(bytes) == hdr);
    assert(hdr.width as int == w);
    assert(hdr.height as int == h);
    assert(hdr.bits_per_pixel as int / 8 == bpp);
    assert(0x20u8 & 0x20u8 == 0x20u8) by (bit_vector);
    assert(0x20u8 & 0x10u8 == 0u8) by (bit_vector);
    assert(w * h * bpp == (w * h) * bpp) by (nonlinear_arith);
    if rle {
        lemma_rle_roundtrip(data, bpp, 0, w * h, trailer_bytes());
        assert(bytes.subrange(18, bytes.len() as int) =~= payload + trailer_bytes());
        assert(data.subrange(0, (w * h) * bpp) =~= data);
        assert(rle_decode(bytes.subrange(18, bytes.len() as int), bpp, w * h) == Some(data));
    } else {
        assert(bytes.len() == 18 + data.len() + 26);
        assert(bytes.subrange(18, 18 + w * h * bpp) =~= data);
    }
}

} // verus!
