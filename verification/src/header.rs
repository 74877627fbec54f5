use vstd::prelude::*;

use crate::color::TgaError;

verus! {

/// The fixed 18-byte record at the front of an encoded image.  Multi-byte
/// fields are little-endian.
#[derive(PartialEq, Eq, Structural, Clone, Copy, Debug)]
pub struct Header {
    pub id_length: u8,
    pub color_map_type: u8,
    pub data_type_code: u8,
    pub color_map_origin: i16,
    pub color_map_length: i16,
    pub color_map_depth: u8,
    pub x_origin: i16,
    pub y_origin: i16,
    pub width: i16,
    pub height: i16,
    pub bits_per_pixel: u8,
    pub image_descriptor: u8,
}

/// The length in bytes of a serialized header.
pub const HEADER_LEN: usize = 18;

/// The two's-complement 16-bit image of a signed value, in [0, 65536).
pub open spec fn i16_unsigned(v: i16) -> int {
    if v >= 0 {
        v as int
    } else {
        v as int + 65536
    }
}

/// The low byte of a little-endian signed 16-bit value.
pub open spec fn i16_lo(v: i16) -> u8 {
    (i16_unsigned(v) % 256) as u8
}

/// The high byte of a little-endian signed 16-bit value.
pub open spec fn i16_hi(v: i16) -> u8 {
    (i16_unsigned(v) / 256) as u8
}

/// The signed 16-bit value read from two little-endian bytes.
pub open spec fn le16_to_i16(b0: u8, b1: u8) -> i16 {
    let u = b0 as int + 256 * (b1 as int);
    (if u < 32768 {
        u
    } else {
        u - 65536
    }) as i16
}

/// Reading back the two little-endian bytes of a value gives the value,
/// and serializing a parsed pair of bytes gives the pair.
pub proof fn lemma_le16_roundtrip(v: i16, b0: u8, b1: u8)
    ensures
        le16_to_i16(i16_lo(v), i16_hi(v)) == v,
        i16_lo(le16_to_i16(b0, b1)) == b0,
        i16_hi(le16_to_i16(b0, b1)) == b1,
{
    let u = i16_unsigned(v);
    vstd::arithmetic::div_mod::lemma_fundamental_div_mod(u, 256);
    vstd::arithmetic::div_mod::lemma_mod_division_less_than_divisor(u, 256);
    vstd::arithmetic::div_mod::lemma_div_pos_is_pos(u, 256);
    assert(u / 256 < 256) by (nonlinear_arith)
        requires
            u < 65536,
            u == 256 * (u / 256) + u % 256,
            u % 256 >= 0,
    ;
    let w = b0 as int + 256 * (b1 as int);
    vstd::arithmetic::div_mod::lemma_fundamental_div_mod_converse_div(w, 256, b1 as int, b0 as int);
    vstd::arithmetic::div_mod::lemma_fundamental_div_mod_converse_mod(w, 256, b1 as int, b0 as int);
}

/// The serialized form of a header: 18 bytes in the fixed field order.
pub open spec fn header_bytes(h: Header) -> Seq<u8> {
    seq![
        h.id_length,
        h.color_map_type,
        h.data_type_code,
        i16_lo(h.color_map_origin),
        i16_hi(h.color_map_origin),
        i16_lo(h.color_map_length),
        i16_hi(h.color_map_length),
        h.color_map_depth,
        i16_lo(h.x_origin),
        i16_hi(h.x_origin),
        i16_lo(h.y_origin),
        i16_hi(h.y_origin),
        i16_lo(h.width),
        i16_hi(h.width),
        i16_lo(h.height),
        i16_hi(h.height),
        h.bits_per_pixel,
        h.image_descriptor,
    ]
}

/// The header whose fields are read from the first 18 bytes of a stream.
pub open spec fn parse_header(bytes: Seq<u8>) -> Header {
    Header {
        id_length: bytes[0],
        color_map_type: bytes[1],
        data_type_code: bytes[2],
        color_map_origin: le16_to_i16(bytes[3], bytes[4]),
        color_map_length: le16_to_i16(bytes[5], bytes[6]),
        color_map_depth: bytes[7],
        x_origin: le16_to_i16(bytes[8], bytes[9]),
        y_origin: le16_to_i16(bytes[10], bytes[11]),
        width: le16_to_i16(bytes[12], bytes[13]),
        height: le16_to_i16(bytes[14], bytes[15]),
        bits_per_pixel: bytes[16],
        image_descriptor: bytes[17],
    }
}

/// Parsing the serialized form of a header, with anything after it, gives
/// the header back.
pub proof fn lemma_header_roundtrip(h: Header, rest: Seq<u8>)
    ensures
        parse_header(header_bytes(h) + rest) == h,
{
    let bytes = header_bytes(h) + rest;
    lemma_le16_roundtrip(h.color_map_origin, 0, 0);
    lemma_le16_roundtrip(h.color_map_length, 0, 0);
    lemma_le16_roundtrip(h.x_origin, 0, 0);
    lemma_le16_roundtrip(h.y_origin, 0, 0);
    lemma_le16_roundtrip(h.width, 0, 0);
    lemma_le16_roundtrip(h.height, 0, 0);
    assert(parse_header(bytes) == h);
}

/// Read one signed little-endian 16-bit field.
fn read_le16(stream: &[u8], pos: usize) -> (v: i16)
    requires
        pos + 2 <= stream@.len(),
    ensures
        v == le16_to_i16(stream@[pos as int], stream@[pos + 1]),
{
    let b0 = stream[pos];
    let b1 = stream[pos + 1];
    let u: i32 = b0 as i32 + 256 * (b1 as i32);
    if u < 32768 {
        u as i16
    } else {
        (u - 65536) as i16
    }
}

impl Header {
    /// Parse a header from the front of an encoded stream.  Fails with
    /// `InvalidFormat` exactly when fewer than 18 bytes are there.
    pub fn from_stream(stream: &[u8]) -> (r: Result<Header, TgaError>)
        ensures
            stream@.len() >= HEADER_LEN ==> r == Ok::<Header, TgaError>(parse_header(stream@)),
            stream@.len() < HEADER_LEN ==> r == Err::<Header, TgaError>(TgaError::InvalidFormat),
    {
        if stream.len() < HEADER_LEN {
            return Err(TgaError::InvalidFormat);
        }
        Ok(
            Header {
                id_length: stream[0],
                color_map_type: stream[1],
                data_type_code: stream[2],
                color_map_origin: read_le16(stream, 3),
                color_map_length: read_le16(stream, 5),
                color_map_depth: stream[7],
                x_origin: read_le16(stream, 8),
                y_origin: read_le16(stream, 10),
                width: read_le16(stream, 12),
                height: read_le16(stream, 14),
                bits_per_pixel: stream[16],
                image_descriptor: stream[17],
            },
        )
    }

    /// Serialize the header to its fixed 18-byte form.
    pub fn to_stream(&self) -> (out: Vec<u8>)
        ensures
            out@ == header_bytes(*self),
    {
        let mut out: Vec<u8> = Vec::with_capacity(HEADER_LEN);
        out.push(self.id_length);
        out.push(self.color_map_type);
        out.push(self.data_type_code);
        push_le16(&mut out, self.color_map_origin);
        push_le16(&mut out, self.color_map_length);
        out.push(self.color_map_depth);
        push_le16(&mut out, self.x_origin);
        push_le16(&mut out, self.y_origin);
        push_le16(&mut out, self.width);
        push_le16(&mut out, self.height);
        out.push(self.bits_per_pixel);
        out.push(self.image_descriptor);
        proof {
            assert(out@ =~= header_bytes(*self));
        }
        out
    }
}

/// Append one signed 16-bit field in little-endian order.
fn push_le16(out: &mut Vec<u8>, v: i16)
    ensures
        final(out)@ == old(out)@ + seq![i16_lo(v), i16_hi(v)],
{
    let u: i32 = if v >= 0 {
        v as i32
    } else {
        v as i32 + 65536
    };
    proof {
        vstd::arithmetic::div_mod::lemma_fundamental_div_mod(u as int, 256);
        vstd::arithmetic::div_mod::lemma_mod_division_less_than_divisor(u as int, 256);
        vstd::arithmetic::div_mod::lemma_div_pos_is_pos(u as int, 256);
        assert(u / 256 < 256) by (nonlinear_arith)
            requires
                u < 65536,
                u as int == 256 * (u as int / 256) + u as int % 256,
                u as int % 256 >= 0,
        ;
    }
    out.push((u % 256) as u8);
    out.push((u / 256) as u8);
    proof {
        assert(out@ =~= old(out)@ + seq![i16_lo(v), i16_hi(v)]);
    }
}

} // verus!
