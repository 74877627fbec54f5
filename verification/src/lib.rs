//! A small software rendering pipeline: a pixel buffer with a binary
//! image codec (raw and run-length-compressed, bit-exact header and
//! trailer), and a rasterizer that draws minimal-error lines and
//! depth-tested filled triangles into it.  Every operation carries a
//! contract, and the key laws — the encode/decode round trip, the
//! self-inverse flips, the compressed size of a uniform buffer, the
//! raster line's pixel set, and the order independence of depth-tested
//! fills — are proved.
//!
//! Reading and writing the encoded byte streams is the caller's
//! business: the codec works on byte slices and byte vectors.

pub mod codec;
pub mod color;
pub mod header;
pub mod image;
pub mod raster;
pub mod vec;
pub mod zbuffer;

pub use color::Color;
pub use color::TgaError;
pub use image::Image;
pub use zbuffer::ZBuffer;
