//! Converting X image pixels (16, 24 or 32 bits, either byte order, any
//! channel masks) into BGRA bytes.

use vstd::prelude::*;
use vstd::arithmetic::power2::pow2;
use vstd::std_specs::bits::u64_trailing_zeros;

verus! {

/// Number of set bits.
pub open spec fn ones(m: u64) -> nat
    decreases m,
{
    if m == 0 {
        0
    } else {
        (m % 2) as nat + ones(m / 2)
    }
}

proof fn lemma_ones_bounds(m: u64)
    ensures
        ones(m) <= m,
        m != 0 ==> ones(m) >= 1,
    decreases m,
{
    if m != 0 {
        lemma_ones_bounds(m / 2);
    }
}

/// The bits of `pixel` selected by `mask`, shifted down to bit 0.
pub open spec fn channel_raw(pixel: u64, mask: u64) -> u64 {
    (pixel & mask) >> (u64_trailing_zeros(mask) as u64)
}

/// Largest value a channel of `mask`'s width can hold: 2^(set bits) - 1.
pub open spec fn channel_max(mask: u64) -> int {
    pow2(ones(mask)) - 1
}

/// The channel of `pixel` selected by `mask`, scaled from `0..=channel_max`
/// to `0..=255` and rounded to nearest; 0 when the mask is empty.
pub open spec fn channel_level(pixel: u64, mask: u64) -> int {
    if mask == 0 {
        0
    } else {
        (channel_raw(pixel, mask) * 255 + channel_max(mask) / 2) / channel_max(mask)
    }
}

/// A channel value within the mask's range lands in `0..=255`; the largest
/// value gives 255 and zero gives 0.
pub proof fn lemma_channel_level_range(pixel: u64, mask: u64)
    requires
        mask != 0,
        channel_raw(pixel, mask) <= channel_max(mask),
    ensures
        0 <= channel_level(pixel, mask) <= 255,
        channel_raw(pixel, mask) == channel_max(mask) ==> channel_level(pixel, mask) == 255,
        channel_raw(pixel, mask) == 0 ==> channel_level(pixel, mask) == 0,
{
    lemma_ones_bounds(mask);
    vstd::arithmetic::power2::lemma_pow2_strictly_increases(0, ones(mask));
    vstd::arithmetic::power2::lemma2_to64();
    let raw = channel_raw(pixel, mask) as int;
    let max = channel_max(mask);
    assert(max >= 1);
    assert(0 <= (raw * 255 + max / 2) / max <= 255) by (nonlinear_arith)
        requires 0 <= raw <= max, max >= 1;
    if raw == max {
        assert((max * 255 + max / 2) / max == 255) by (nonlinear_arith)
            requires max >= 1;
    }
    if raw == 0 {
        assert((max / 2) / max == 0) by (nonlinear_arith)
            requires max >= 1;
    }
}

/// The scaling of `channel_level` stays within `u64`.
pub open spec fn channel_fits(pixel: u64, mask: u64) -> bool {
    mask == 0 || (ones(mask) < 64 && channel_raw(pixel, mask) * 255 + channel_max(mask) / 2 <= u64::MAX)
}

fn count_ones(m: u64) -> (c: u64)
    ensures
        c == ones(m),
{
    proof {
        lemma_ones_bounds(m);
    }
    let mut v = m;
    let mut c: u64 = 0;
    while v != 0
        invariant
            c + ones(v) == ones(m),
            ones(m) <= m,
        decreases v,
    {
        c = c + v % 2;
        v = v / 2;
    }
    c
}

/// One channel of an X pixel value, given the channel's bit mask, as a byte.
pub fn extract_channel(pixel: u64, mask: u64) -> (c: u8)
    requires
        channel_fits(pixel, mask),
    ensures
        c == channel_level(pixel, mask) as u8,
{
    if mask == 0 {
        return 0;
    }
    let shift = mask.trailing_zeros();
    let bits = count_ones(mask);
    proof {
        vstd::std_specs::bits::axiom_u64_trailing_zeros(mask);
        lemma_ones_bounds(mask);
        vstd::bits::lemma_u64_pow2_no_overflow(bits as nat);
        vstd::bits::lemma_u64_shl_is_mul(1, bits);
    }
    let raw = (pixel & mask) >> (shift as u64);
    let max = (1u64 << bits) - 1;
    proof {
        vstd::arithmetic::power2::lemma_pow2_pos(bits as nat);
        vstd::arithmetic::power2::lemma_pow2_strictly_increases(0, bits as nat);
        vstd::arithmetic::power2::lemma2_to64();
    }
    ((raw * 255 + max / 2) / max) as u8
}

/// How an X image stores its pixels.
#[derive(Clone, Copy, Debug, PartialEq, Eq, Structural)]
pub struct ImageLayout {
    pub depth: i32,
    pub bytes_per_line: i32,
    pub bits_per_pixel: i32,
    /// `true` for least-significant byte first.
    pub lsb_first: bool,
    pub red_mask: u64,
    pub green_mask: u64,
    pub blue_mask: u64,
}

/// Errors in converting an X image.
#[derive(Clone, Copy, Debug, PartialEq, Eq, Structural)]
pub enum ImageError {
    /// Only 16, 24 and 32 bits per pixel are read.
    UnsupportedPixelFormat { depth: i32, bits_per_pixel: i32 },
}

/// 16, 24 and 32 bits per pixel are supported.
pub open spec fn supported_bpp(bpp: int) -> bool {
    bpp == 32 || bpp == 24 || bpp == 16
}

/// Bytes that one pixel takes.
pub open spec fn bytes_per_pixel(bpp: int) -> int {
    if bpp / 8 >= 1 { bpp / 8 } else { 1 }
}

/// The pixel value stored at byte offset `off`, in the given byte order.
pub open spec fn pixel_word(data: Seq<u8>, off: int, bpp: int, lsb_first: bool) -> u64 {
    let b0 = data[off] as int;
    let b1 = data[off + 1] as int;
    if bpp == 32 {
        let b2 = data[off + 2] as int;
        let b3 = data[off + 3] as int;
        if lsb_first {
            (b0 + b1 * 0x100 + b2 * 0x10000 + b3 * 0x1000000) as u64
        } else {
            (b0 * 0x1000000 + b1 * 0x10000 + b2 * 0x100 + b3) as u64
        }
    } else if bpp == 24 {
        let b2 = data[off + 2] as int;
        if lsb_first {
            (b0 + b1 * 0x100 + b2 * 0x10000) as u64
        } else {
            (b0 * 0x10000 + b1 * 0x100 + b2) as u64
        }
    } else {
        if lsb_first {
            (b0 + b1 * 0x100) as u64
        } else {
            (b0 * 0x100 + b1) as u64
        }
    }
}

/// Byte offset of pixel `(x, y)` in the image data.
pub open spec fn source_offset(layout: ImageLayout, x: int, y: int) -> int {
    y * layout.bytes_per_line + x * bytes_per_pixel(layout.bits_per_pixel as int)
}

/// The four bytes of pixel `(x, y)` of `out` hold the blue, green and red
/// levels of the image's pixel and an opaque alpha.
pub open spec fn bgra_pixel_ok(out: Seq<u8>, data: Seq<u8>, layout: ImageLayout, width: int, x: int, y: int) -> bool {
    let i = (y * width + x) * 4;
    let word = pixel_word(data, source_offset(layout, x, y), layout.bits_per_pixel as int, layout.lsb_first);
    &&& out[i] == channel_level(word, layout.blue_mask) as u8
    &&& out[i + 1] == channel_level(word, layout.green_mask) as u8
    &&& out[i + 2] == channel_level(word, layout.red_mask) as u8
    &&& out[i + 3] == 255
}

/// The image data holds `height` rows of `width` pixels and, when there is
/// a pixel to convert, the masks are narrower than 64 bits.
pub open spec fn image_readable(data_len: int, layout: ImageLayout, width: int, height: int) -> bool {
    &&& 0 <= width
    &&& 0 <= height
    &&& 0 <= layout.bytes_per_line
    &&& (width > 0 && height > 0) ==> {
        &&& (height - 1) * layout.bytes_per_line + width * bytes_per_pixel(layout.bits_per_pixel as int)
            <= data_len
        &&& ones(layout.red_mask) < 64
        &&& ones(layout.green_mask) < 64
        &&& ones(layout.blue_mask) < 64
    }
}

fn read_pixel_word(data: &[u8], off: usize, bpp: i32, lsb_first: bool) -> (v: u64)
    requires
        supported_bpp(bpp as int),
        off + bytes_per_pixel(bpp as int) <= data@.len(),
    ensures
        v == pixel_word(data@, off as int, bpp as int, lsb_first),
        v < 0x1_0000_0000,
{
    let b0 = data[off] as u64;
    let b1 = data[off + 1] as u64;
    if bpp == 32 {
        let b2 = data[off + 2] as u64;
        let b3 = data[off + 3] as u64;
        if lsb_first {
            b0 + b1 * 0x100 + b2 * 0x10000 + b3 * 0x1000000
        } else {
            b0 * 0x1000000 + b1 * 0x10000 + b2 * 0x100 + b3
        }
    } else if bpp == 24 {
        let b2 = data[off + 2] as u64;
        if lsb_first {
            b0 + b1 * 0x100 + b2 * 0x10000
        } else {
            b0 * 0x10000 + b1 * 0x100 + b2
        }
    } else {
        if lsb_first {
            b0 + b1 * 0x100
        } else {
            b0 * 0x100 + b1
        }
    }
}

proof fn lemma_small_word_fits(word: u64, mask: u64)
    requires
        word < 0x1_0000_0000,
        ones(mask) < 64,
    ensures
        channel_fits(word, mask),
{
    if mask != 0 {
        let tz = u64_trailing_zeros(mask) as u64;
        vstd::std_specs::bits::axiom_u64_trailing_zeros(mask);
        assert((word & mask) <= word) by (bit_vector);
        assert(((word & mask) >> tz) <= (word & mask)) by (bit_vector);
        vstd::bits::lemma_u64_pow2_no_overflow(ones(mask));
    }
}

/// Converts `height` rows of `width` X image pixels into BGRA bytes in
/// `out`, row by row, with alpha 255. Each channel is the pixel's bits under
/// the channel's mask, scaled to `0..=255`. Bytes of `out` past the image are
/// left as they were. Pixel formats other than 16, 24 and 32 bits per pixel
/// are refused and leave `out` unchanged.
pub fn copy_ximage_to_bgra(
    data: &[u8],
    layout: &ImageLayout,
    width: i32,
    height: i32,
    out: &mut Vec<u8>,
) -> (r: Result<(), ImageError>)
    requires
        supported_bpp(layout.bits_per_pixel as int) ==> image_readable(
            data@.len() as int,
            *layout,
            width as int,
            height as int,
        ) && 4 * width * height <= old(out)@.len(),
    ensures
        final(out)@.len() == old(out)@.len(),
        match r {
            Err(e) => {
                &&& !supported_bpp(layout.bits_per_pixel as int)
                &&& e == ImageError::UnsupportedPixelFormat {
                    depth: layout.depth,
                    bits_per_pixel: layout.bits_per_pixel,
                }
                &&& final(out)@ == old(out)@
            },
            Ok(_) => {
                &&& supported_bpp(layout.bits_per_pixel as int)
                &&& forall|x: int, y: int|
                    0 <= x < width && 0 <= y < height ==> #[trigger] bgra_pixel_ok(
                        final(out)@,
                        data@,
                        *layout,
                        width as int,
                        x,
                        y,
                    )
                &&& forall|j: int| 4 * width * height <= j < old(out)@.len() ==> #[trigger] final(out)@[j] == old(out)@[j]
            },
        },
{
    let bpp = layout.bits_per_pixel;
    if !(bpp == 32 || bpp == 24 || bpp == 16) {
        return Err(ImageError::UnsupportedPixelFormat { depth: layout.depth, bits_per_pixel: bpp });
    }
    let bytes_pp: usize = if bpp / 8 >= 1 { (bpp / 8) as usize } else { 1 };
    let bpl = layout.bytes_per_line as usize;
    let w = width as usize;
    let h = height as usize;
    let ghost old_out = out@;
    let data_len = data.len();
    let out_len = out.len();
    let mut y: usize = 0;
    while y < h
        invariant
            image_readable(data@.len() as int, *layout, width as int, height as int),
            supported_bpp(bpp as int),
            bpp == layout.bits_per_pixel,
            bytes_pp == bytes_per_pixel(bpp as int),
            bpl == layout.bytes_per_line,
            w == width,
            h == height,
            4 * width * height <= old_out.len(),
            out@.len() == old_out.len(),
            data_len == data@.len(),
            out_len == old_out.len(),
            0 <= y <= h,
            forall|x2: int, y2: int|
                0 <= x2 < w && 0 <= y2 < y ==> #[trigger] bgra_pixel_ok(out@, data@, *layout, width as int, x2, y2),
            forall|j: int| 4 * (y * w) <= j < old_out.len() ==> #[trigger] out@[j] == old_out[j],
        decreases h - y,
    {
        let mut x: usize = 0;
        while x < w
            invariant
                image_readable(data@.len() as int, *layout, width as int, height as int),
                supported_bpp(bpp as int),
                bpp == layout.bits_per_pixel,
                bytes_pp == bytes_per_pixel(bpp as int),
                bpl == layout.bytes_per_line,
                w == width,
                h == height,
                4 * width * height <= old_out.len(),
                out@.len() == old_out.len(),
                data_len == data@.len(),
                out_len == old_out.len(),
                0 <= y < h,
                0 <= x <= w,
                forall|x2: int, y2: int|
                    0 <= x2 < w && 0 <= y2 < y ==> #[trigger] bgra_pixel_ok(out@, data@, *layout, width as int, x2, y2),
                forall|x2: int| 0 <= x2 < x ==> #[trigger] bgra_pixel_ok(out@, data@, *layout, width as int, x2, y as int),
                forall|j: int| 4 * (y * w + x) <= j < old_out.len() ==> #[trigger] out@[j] == old_out[j],
            decreases w - x,
        {
            proof {
                assert(y * bpl + x * bytes_pp + bytes_pp <= (h - 1) * bpl + w * bytes_pp) by (nonlinear_arith)
                    requires 0 <= y < h, 0 <= x < w, 0 <= bpl, 0 <= bytes_pp;
                assert((y * w + x) * 4 + 4 <= 4 * w * h) by (nonlinear_arith)
                    requires 0 <= y < h, 0 <= x < w;
                assert(0 <= y * bpl && 0 <= x * bytes_pp) by (nonlinear_arith)
                    requires 0 <= y, 0 <= x, 0 <= bpl, 0 <= bytes_pp;
                assert(4 * width * height == 4 * (h * w)) by (nonlinear_arith)
                    requires h == height, w == width;
                assert(0 <= y * w <= y * w + x) by (nonlinear_arith)
                    requires 0 <= y, 0 <= x, 0 <= w;
            }
            let off = y * bpl + x * bytes_pp;
            let word = read_pixel_word(data, off, bpp, layout.lsb_first);
            proof {
                lemma_small_word_fits(word, layout.red_mask);
                lemma_small_word_fits(word, layout.green_mask);
                lemma_small_word_fits(word, layout.blue_mask);
            }
            let r = extract_channel(word, layout.red_mask);
            let g = extract_channel(word, layout.green_mask);
            let b = extract_channel(word, layout.blue_mask);
            let oi = (y * w + x) * 4;
            let ghost before = out@;
            out.set(oi, b);
            out.set(oi + 1, g);
            out.set(oi + 2, r);
            out.set(oi + 3, 255);
            proof {
                assert forall|x2: int, y2: int|
                    0 <= x2 < w && 0 <= y2 < y implies #[trigger] bgra_pixel_ok(out@, data@, *layout, width as int, x2, y2) by {
                    assert((y2 * w + x2) * 4 + 4 <= (y * w + x) * 4) by (nonlinear_arith)
                        requires 0 <= y2 < y, 0 <= x2 < w;
                    assert(bgra_pixel_ok(before, data@, *layout, width as int, x2, y2));
                }
                assert forall|x2: int| 0 <= x2 < x + 1 implies #[trigger] bgra_pixel_ok(out@, data@, *layout, width as int, x2, y as int) by {
                    if x2 < x {
                        assert(bgra_pixel_ok(before, data@, *layout, width as int, x2, y as int));
                    }
                }
            }
            x = x + 1;
        }
        proof {
            assert(y * w + w == (y + 1) * w) by (nonlinear_arith);
        }
        y = y + 1;
    }
    proof {
        assert(4 * (h * w) == 4 * width * height) by (nonlinear_arith)
            requires h == height, w == width;
    }
    Ok(())
}

} // verus!
