use vstd::prelude::*;

verus! {

/// The errors a pixel-buffer or codec operation can report.
///
/// `InvalidFormat` covers a malformed or truncated encoded stream:
/// non-positive dimensions, an unsupported pixel depth or data type code,
/// run-length packets that overrun the declared pixel count, or a stream
/// that ends before the declared payload does.  `OutOfBounds` is a pixel
/// access outside the buffer.  Failures of the underlying byte source or
/// sink are the caller's concern and never arise here.
#[derive(PartialEq, Eq, Structural, Clone, Copy, Debug)]
pub enum TgaError {
    InvalidFormat,
    OutOfBounds,
}

/// One color sample: blue, green, red and alpha channel values, together
/// with the channel count (bytes per pixel) it was read or written with.
/// Comparisons and copies of a sample only touch the first `bytespp`
/// channels; the missing channels read as zero.
#[derive(PartialEq, Eq, Structural, Clone, Copy, Debug)]
pub struct Color {
    pub b: u8,
    pub g: u8,
    pub r: u8,
    pub a: u8,
    pub bytespp: usize,
}

/// Channel `i` of a color in stored order: blue, green, red, alpha.
pub open spec fn channel(c: Color, i: int) -> u8 {
    if i == 0 {
        c.b
    } else if i == 1 {
        c.g
    } else if i == 2 {
        c.r
    } else {
        c.a
    }
}

/// The first `bpp` channels of a color, in stored order.
pub open spec fn color_bytes(c: Color, bpp: int) -> Seq<u8> {
    Seq::new(bpp as nat, |i: int| channel(c, i))
}

impl Color {
    /// A black, fully transparent grayscale sample.
    pub fn new() -> (c: Color)
        ensures
            c == (Color { b: 0, g: 0, r: 0, a: 0, bytespp: 1 }),
    {
        Color { b: 0, g: 0, r: 0, a: 0, bytespp: 1 }
    }

    /// A four-channel sample from its red, green, blue and alpha values.
    pub fn rgba(r: u8, g: u8, b: u8, a: u8) -> (c: Color)
        ensures
            c == (Color { b: b, g: g, r: r, a: a, bytespp: 4 }),
    {
        Color { b: b, g: g, r: r, a: a, bytespp: 4 }
    }

    /// A sample read from `bpp` raw bytes in stored (b, g, r, a) order;
    /// channels beyond `bpp` are zero.
    pub fn from_raw(raw: &[u8], bpp: usize) -> (c: Color)
        requires
            1 <= bpp <= 4,
            raw@.len() >= bpp,
        ensures
            c.bytespp == bpp,
            color_bytes(c, bpp as int) == raw@.subrange(0, bpp as int),
            forall|i: int| bpp <= i < 4 ==> channel(c, i) == 0,
    {
        let b = raw[0];
        let g = if bpp > 1 { raw[1] } else { 0 };
        let r = if bpp > 2 { raw[2] } else { 0 };
        let a = if bpp > 3 { raw[3] } else { 0 };
        let c = Color { b: b, g: g, r: r, a: a, bytespp: bpp };
        proof {
            assert(color_bytes(c, bpp as int) =~= raw@.subrange(0, bpp as int));
        }
        c
    }

    /// A sample read from `bpp` bytes of `stream` starting at `pos`, in
    /// stored (b, g, r, a) order; channels beyond `bpp` are zero.
    pub fn from_stream(stream: &[u8], pos: usize, bpp: usize) -> (c: Color)
        requires
            1 <= bpp <= 4,
            pos + bpp <= stream@.len(),
        ensures
            c.bytespp == bpp,
            color_bytes(c, bpp as int) == stream@.subrange(pos as int, pos + bpp),
            forall|i: int| bpp <= i < 4 ==> channel(c, i) == 0,
    {
        let b = stream[pos];
        let g = if bpp > 1 { stream[pos + 1] } else { 0 };
        let r = if bpp > 2 { stream[pos + 2] } else { 0 };
        let a = if bpp > 3 { stream[pos + 3] } else { 0 };
        let c = Color { b: b, g: g, r: r, a: a, bytespp: bpp };
        proof {
            assert(color_bytes(c, bpp as int) =~= stream@.subrange(pos as int, pos + bpp));
        }
        c
    }
}

} // verus!
