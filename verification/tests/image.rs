use lib::png::{png_size_from_header, BootSize, PngError};
use lib::ximage::{copy_ximage_to_bgra, extract_channel, ImageError, ImageLayout};

#[test]
fn channel_extraction() {
    assert_eq!(extract_channel(0x00ff_0000, 0x00ff_0000), 255);
    assert_eq!(extract_channel(0x0080_0000, 0x00ff_0000), 128);
    assert_eq!(extract_channel(0x0012_3456, 0), 0);
    assert_eq!(extract_channel(0x0000_00ff, 0x00ff_0000), 0);
    // 5-bit red of RGB565
    assert_eq!(extract_channel(0xf800, 0xf800), 255);
    assert_eq!(extract_channel(0x8000, 0xf800), 132);
    // 6-bit green of RGB565: 1 of 63 rounds to 4
    assert_eq!(extract_channel(0x0020, 0x07e0), 4);
}

fn layout(bpp: i32, lsb_first: bool) -> ImageLayout {
    let (r, g, b) = if bpp == 16 { (0xf800, 0x07e0, 0x001f) } else { (0x00ff_0000, 0x0000_ff00, 0x0000_00ff) };
    ImageLayout {
        depth: 24,
        bytes_per_line: 2 * (bpp / 8) + 2,
        bits_per_pixel: bpp,
        lsb_first,
        red_mask: r,
        green_mask: g,
        blue_mask: b,
    }
}

#[test]
fn copy_32bit_lsb() {
    // two rows of two pixels, 2 padding bytes per row
    let data = vec![
        0x10, 0x20, 0x30, 0x00, 0x01, 0x02, 0x03, 0x00, 0xee, 0xee, //
        0xff, 0x00, 0x00, 0x00, 0x00, 0x00, 0xff, 0x00, 0xee, 0xee,
    ];
    let mut out = vec![7u8; 18];
    assert_eq!(copy_ximage_to_bgra(&data, &layout(32, true), 2, 2, &mut out), Ok(()));
    assert_eq!(
        out,
        vec![0x10, 0x20, 0x30, 255, 0x01, 0x02, 0x03, 255, 0xff, 0x00, 0x00, 255, 0x00, 0x00, 0xff, 255, 7, 7]
    );
}

#[test]
fn copy_32bit_msb() {
    let data = vec![0x00, 0x30, 0x20, 0x10, 0x00, 0x03, 0x02, 0x01, 0, 0];
    let mut out = vec![0u8; 8];
    assert_eq!(copy_ximage_to_bgra(&data, &layout(32, false), 2, 1, &mut out), Ok(()));
    assert_eq!(out, vec![0x10, 0x20, 0x30, 255, 0x01, 0x02, 0x03, 255]);
}

#[test]
fn copy_24bit_both_orders() {
    let data = vec![0x10, 0x20, 0x30, 0x01, 0x02, 0x03, 0, 0];
    let mut out = vec![0u8; 8];
    assert_eq!(copy_ximage_to_bgra(&data, &layout(24, true), 2, 1, &mut out), Ok(()));
    assert_eq!(out, vec![0x10, 0x20, 0x30, 255, 0x01, 0x02, 0x03, 255]);
    let mut out = vec![0u8; 8];
    assert_eq!(copy_ximage_to_bgra(&data, &layout(24, false), 2, 1, &mut out), Ok(()));
    assert_eq!(out, vec![0x30, 0x20, 0x10, 255, 0x03, 0x02, 0x01, 255]);
}

#[test]
fn copy_16bit_rgb565() {
    // pure red then pure blue, least significant byte first
    let data = vec![0x00, 0xf8, 0x1f, 0x00, 0, 0];
    let mut out = vec![0u8; 8];
    assert_eq!(copy_ximage_to_bgra(&data, &layout(16, true), 2, 1, &mut out), Ok(()));
    assert_eq!(out, vec![0, 0, 255, 255, 255, 0, 0, 255]);
}

#[test]
fn copy_refuses_8bit() {
    let l = ImageLayout { depth: 8, bits_per_pixel: 8, ..layout(32, true) };
    let mut out = vec![1u8; 8];
    assert_eq!(
        copy_ximage_to_bgra(&[0; 16], &l, 2, 1, &mut out),
        Err(ImageError::UnsupportedPixelFormat { depth: 8, bits_per_pixel: 8 })
    );
    assert_eq!(out, vec![1u8; 8]);
}

fn png_header(w: u32, h: u32) -> Vec<u8> {
    let mut v = vec![137, 80, 78, 71, 13, 10, 26, 10, 0, 0, 0, 13, b'I', b'H', b'D', b'R'];
    v.extend_from_slice(&w.to_be_bytes());
    v.extend_from_slice(&h.to_be_bytes());
    v
}

#[test]
fn png_size() {
    assert_eq!(png_size_from_header(&png_header(88, 112)), Ok(BootSize { w: 88, h: 112 }));
    assert_eq!(png_size_from_header(&png_header(0x0102_0304, 1)), Ok(BootSize { w: 0x0102_0304, h: 1 }));
    assert_eq!(png_size_from_header(&png_header(0xffff_ffff, 2)), Ok(BootSize { w: -1, h: 2 }));
}

#[test]
fn png_refusals() {
    let mut bad = png_header(88, 112);
    bad[0] = 0;
    assert_eq!(png_size_from_header(&bad), Err(PngError::NotPng));
    let mut bad = png_header(88, 112);
    bad[12] = b'X';
    assert_eq!(png_size_from_header(&bad), Err(PngError::NotPng));
    assert_eq!(png_size_from_header(&png_header(88, 112)[..23]), Err(PngError::TooShort));
}
