//! Reading the size of the boot template from its PNG header.

use vstd::prelude::*;

verus! {

/// Width and height of the boot template image.
#[derive(Clone, Copy, Debug, PartialEq, Eq, Structural)]
pub struct BootSize {
    pub w: i32,
    pub h: i32,
}

/// Why a template header was refused.
#[derive(Clone, Copy, Debug, PartialEq, Eq, Structural)]
pub enum PngError {
    /// Fewer than the 24 bytes that hold the signature and the image size.
    TooShort,
    /// No PNG signature, or the first chunk is not `IHDR`.
    NotPng,
}

/// The 8-byte PNG signature followed, after the chunk length, by the chunk
/// type `IHDR`.
pub open spec fn png_header_ok(h: Seq<u8>) -> bool {
    &&& h[0] == 137 && h[1] == 80 && h[2] == 78 && h[3] == 71
    &&& h[4] == 13 && h[5] == 10 && h[6] == 26 && h[7] == 10
    &&& h[12] == 73 && h[13] == 72 && h[14] == 68 && h[15] == 82
}

/// The big-endian 32-bit integer at `off`, read as `i32`.
pub open spec fn be_i32(h: Seq<u8>, off: int) -> i32 {
    (h[off] * 0x1000000 + h[off + 1] * 0x10000 + h[off + 2] * 0x100 + h[off + 3]) as i32
}

fn read_be_i32(h: &[u8], off: usize) -> (v: i32)
    requires
        off + 4 <= h@.len(),
    ensures
        v == be_i32(h@, off as int),
{
    let u: u32 = (h[off] as u32) * 0x1000000 + (h[off + 1] as u32) * 0x10000 + (h[off + 2] as u32) * 0x100
        + (h[off + 3] as u32);
    u as i32
}

/// Reads the width and height of a PNG image from the first 24 bytes of
/// its file.
pub fn png_size_from_header(header: &[u8]) -> (r: Result<BootSize, PngError>)
    ensures
        header@.len() < 24 ==> r == Err::<BootSize, PngError>(PngError::TooShort),
        header@.len() >= 24 && !png_header_ok(header@) ==> r == Err::<BootSize, PngError>(PngError::NotPng),
        header@.len() >= 24 && png_header_ok(header@) ==> r == Ok::<BootSize, PngError>(
            BootSize { w: be_i32(header@, 16), h: be_i32(header@, 20) },
        ),
{
    if header.len() < 24 {
        return Err(PngError::TooShort);
    }
    let sig_ok = header[0] == 137 && header[1] == 80 && header[2] == 78 && header[3] == 71 && header[4] == 13
        && header[5] == 10 && header[6] == 26 && header[7] == 10;
    let ihdr_ok = header[12] == 73 && header[13] == 72 && header[14] == 68 && header[15] == 82;
    if !sig_ok || !ihdr_ok {
        return Err(PngError::NotPng);
    }
    let w = read_be_i32(header, 16);
    let h = read_be_i32(header, 20);
    Ok(BootSize { w, h })
}

} // verus!
