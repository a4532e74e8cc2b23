//! Pixel colours of BGRA frames: integer hue/saturation/value, the boot and
//! cart colour tests, and the gray conversion used for motion detection.

use vstd::prelude::*;

verus! {

/// Integer division rounded toward zero, as Rust's `/` on signed integers.
pub open spec fn div_trunc(a: int, b: int) -> int {
    if a >= 0 { a / b } else { -((-a) / b) }
}

pub open spec fn max3(a: int, b: int, c: int) -> int {
    if a >= b {
        if a >= c { a } else { c }
    } else {
        if b >= c { b } else { c }
    }
}

pub open spec fn min3(a: int, b: int, c: int) -> int {
    if a <= b {
        if a <= c { a } else { c }
    } else {
        if b <= c { b } else { c }
    }
}

/// Hue of an RGB colour on a 0..180 scale (red at 0, green at 60, blue at 120),
/// before negative values are wrapped.
pub open spec fn raw_hue(r: int, g: int, b: int) -> int {
    let mx = max3(r, g, b);
    let d = mx - min3(r, g, b);
    if d == 0 {
        0
    } else if mx == r {
        div_trunc(30 * (g - b), d)
    } else if mx == g {
        60 + div_trunc(30 * (b - r), d)
    } else {
        120 + div_trunc(30 * (r - g), d)
    }
}

/// Hue on a 0..180 scale.
pub open spec fn hue(r: int, g: int, b: int) -> int {
    let h = raw_hue(r, g, b);
    if h < 0 { h + 180 } else { h }
}

/// Saturation on a 0..255 scale: the spread of the channels relative to the
/// largest one.
pub open spec fn saturation(r: int, g: int, b: int) -> int {
    let mx = max3(r, g, b);
    if mx == 0 { 0 } else { (mx - min3(r, g, b)) * 255 / mx }
}

/// Value: the largest channel.
pub open spec fn value(r: int, g: int, b: int) -> int {
    max3(r, g, b)
}

proof fn lemma_div_trunc_bounded(a: int, d: int)
    requires
        d > 0,
        -30 * d <= a <= 30 * d,
    ensures
        -30 <= div_trunc(a, d) <= 30,
{
    if a >= 0 {
        assert(a / d <= 30) by (nonlinear_arith)
            requires d > 0, 0 <= a <= 30 * d;
        assert(a / d >= 0) by (nonlinear_arith)
            requires d > 0, 0 <= a;
    } else {
        assert((-a) / d <= 30) by (nonlinear_arith)
            requires d > 0, 0 <= -a <= 30 * d;
        assert((-a) / d >= 0) by (nonlinear_arith)
            requires d > 0, 0 <= -a;
    }
}

/// The hue lies in `0..180`, the saturation and the value in `0..=255`.
pub proof fn lemma_hsv_ranges(r: u8, g: u8, b: u8)
    ensures
        0 <= hue(r as int, g as int, b as int) < 180,
        0 <= saturation(r as int, g as int, b as int) <= 255,
        0 <= value(r as int, g as int, b as int) <= 255,
{
    let (r, g, b) = (r as int, g as int, b as int);
    let mx = max3(r, g, b);
    let d = mx - min3(r, g, b);
    if d != 0 {
        if mx == r {
            lemma_div_trunc_bounded(30 * (g - b), d);
        } else if mx == g {
            lemma_div_trunc_bounded(30 * (b - r), d);
        } else {
            lemma_div_trunc_bounded(30 * (r - g), d);
        }
    }
    if mx != 0 {
        assert(0 <= d * 255 / mx <= 255) by (nonlinear_arith)
            requires mx > 0, 0 <= d <= mx;
    }
}

/// A hue/saturation/value triple of an RGB colour, in small integers:
/// hue in `0..180`, saturation and value in `0..=255`.
pub fn hsv_like(r: u8, g: u8, b: u8) -> (hsv: (i32, i32, i32))
    ensures
        hsv.0 == hue(r as int, g as int, b as int),
        hsv.1 == saturation(r as int, g as int, b as int),
        hsv.2 == value(r as int, g as int, b as int),
{
    proof {
        lemma_hsv_ranges(r, g, b);
    }
    let r = r as i32;
    let g = g as i32;
    let b = b as i32;
    let max = if r >= g { if r >= b { r } else { b } } else { if g >= b { g } else { b } };
    let min = if r <= g { if r <= b { r } else { b } } else { if g <= b { g } else { b } };
    let d = max - min;
    let s = if max == 0 { 0 } else { d * 255 / max };
    let mut h = if d == 0 {
        0
    } else if max == r {
        30 * (g - b) / d
    } else if max == g {
        60 + 30 * (b - r) / d
    } else {
        120 + 30 * (r - g) / d
    };
    if h < 0 {
        h += 180;
    }
    (h, s, max)
}

/// Byte offset of the pixel `(x, y)` in a 4-byte-per-pixel frame whose rows
/// are `width` pixels long.
pub open spec fn pixel_offset(width: int, x: int, y: int) -> int {
    (y * width + x) * 4
}

/// The pixel `(x, y)` of a frame of `len` bytes with rows of `width` pixels
/// can be read: its offset is computed within `i32` and its blue, green and
/// red bytes lie inside the frame.
pub open spec fn pixel_in_frame(len: int, width: int, x: int, y: int) -> bool {
    &&& i32::MIN <= y * width <= i32::MAX
    &&& i32::MIN <= y * width + x <= i32::MAX
    &&& 0 <= pixel_offset(width, x, y) <= i32::MAX
    &&& pixel_offset(width, x, y) + 2 < len
}

/// Byte offset of the pixel `(x, y)` in a BGRA frame with rows of `width` pixels.
pub fn idx(width: i32, x: i32, y: i32) -> (i: usize)
    requires
        i32::MIN <= y * width <= i32::MAX,
        i32::MIN <= y * width + x <= i32::MAX,
        i32::MIN <= (y * width + x) * 4 <= i32::MAX,
    ensures
        i == (pixel_offset(width as int, x as int, y as int) as i32) as usize,
{
    ((y * width + x) * 4) as usize
}

/// The colour of the boot: orange-brown hues that are saturated and neither
/// too dark nor too bright.
pub open spec fn is_boot_hsv(h: int, s: int, v: int) -> bool {
    3 <= h <= 36 && s >= 35 && v >= 30 && v <= 245
}

/// The colour of the cart: saturated reds on either side of the hue circle.
pub open spec fn is_red_hsv(h: int, s: int, v: int) -> bool {
    ((0 <= h <= 20) || (150 <= h <= 179)) && s >= 45 && v >= 35
}

/// The pixel at byte offset `i` of a BGRA frame has the boot's colour.
pub open spec fn boot_pixel(frame: Seq<u8>, i: int) -> bool {
    let (r, g, b) = (frame[i + 2] as int, frame[i + 1] as int, frame[i] as int);
    is_boot_hsv(hue(r, g, b), saturation(r, g, b), value(r, g, b))
}

/// The pixel at byte offset `i` of a BGRA frame has the cart's red colour.
pub open spec fn red_pixel(frame: Seq<u8>, i: int) -> bool {
    let (r, g, b) = (frame[i + 2] as int, frame[i + 1] as int, frame[i] as int);
    is_red_hsv(hue(r, g, b), saturation(r, g, b), value(r, g, b))
}

/// The channels of the BGRA pixel at byte offset `i` spread over at least
/// `k` 255ths of the brightest one: its saturation is at least `k`, stated
/// without the rounding division.
pub open spec fn spread_at_least(frame: Seq<u8>, i: int, k: int) -> bool {
    let (r, g, b) = (frame[i + 2] as int, frame[i + 1] as int, frame[i] as int);
    (max3(r, g, b) - min3(r, g, b)) * 255 >= k * max3(r, g, b)
}

/// The brightest channel of the BGRA pixel at byte offset `i`.
pub open spec fn brightest(frame: Seq<u8>, i: int) -> int {
    max3(frame[i + 2] as int, frame[i + 1] as int, frame[i] as int)
}

/// The hue of the BGRA pixel at byte offset `i`.
pub open spec fn hue_at(frame: Seq<u8>, i: int) -> int {
    hue(frame[i + 2] as int, frame[i + 1] as int, frame[i] as int)
}

/// For `k > 0`, a saturation of at least `k` is a spread of the channels of
/// at least `k` 255ths of a brightest channel that is not zero.
pub proof fn lemma_saturation_spread(r: u8, g: u8, b: u8, k: int)
    requires
        k > 0,
    ensures
        saturation(r as int, g as int, b as int) >= k <==> (max3(r as int, g as int, b as int) - min3(
            r as int,
            g as int,
            b as int,
        )) * 255 >= k * max3(r as int, g as int, b as int) && max3(r as int, g as int, b as int) > 0,
{
    let mx = max3(r as int, g as int, b as int);
    let d = mx - min3(r as int, g as int, b as int);
    if mx > 0 {
        assert(d * 255 / mx >= k <==> d * 255 >= k * mx) by (nonlinear_arith)
            requires mx > 0, d >= 0, k > 0;
    }
}

/// A boot-coloured pixel has hue in `3..=36`, a brightest channel in
/// `30..=245` and a saturation of at least 35; conversely every such pixel
/// has the boot's colour. A gray or near-gray pixel, whose channels spread
/// over less than 35 255ths of the brightest, never has it.
pub proof fn lemma_boot_pixel_exact(frame: Seq<u8>, i: int)
    ensures
        boot_pixel(frame, i) <==> 3 <= hue_at(frame, i) <= 36 && 30 <= brightest(frame, i) <= 245
            && spread_at_least(frame, i, 35),
{
    lemma_saturation_spread(frame[i + 2], frame[i + 1], frame[i], 35);
}

/// A cart-red pixel has hue in `0..=20` or `150..=179`, a brightest channel
/// of at least 35 and a saturation of at least 45; conversely every such
/// pixel is cart red. A pixel whose channels spread over less than 45 255ths
/// of the brightest is never cart red.
pub proof fn lemma_red_pixel_exact(frame: Seq<u8>, i: int)
    ensures
        red_pixel(frame, i) <==> ((0 <= hue_at(frame, i) <= 20) || (150 <= hue_at(frame, i) <= 179)) && 35
            <= brightest(frame, i) && spread_at_least(frame, i, 45),
{
    lemma_saturation_spread(frame[i + 2], frame[i + 1], frame[i], 45);
}

/// A gray pixel, whose three channels are equal, has neither the boot's
/// colour nor the cart's red.
pub proof fn lemma_gray_pixel_uncoloured(frame: Seq<u8>, i: int)
    requires
        frame[i] == frame[i + 1],
        frame[i + 1] == frame[i + 2],
    ensures
        !boot_pixel(frame, i),
        !red_pixel(frame, i),
{
    lemma_boot_pixel_exact(frame, i);
    lemma_red_pixel_exact(frame, i);
    let v = frame[i] as int;
    assert(max3(v, v, v) == v && min3(v, v, v) == v);
}

/// Whether the pixel `(x, y)` of a BGRA frame has the boot's colour.
pub fn boot_color(frame: &[u8], width: i32, x: i32, y: i32) -> (b: bool)
    requires
        pixel_in_frame(frame@.len() as int, width as int, x as int, y as int),
    ensures
        b == boot_pixel(frame@, pixel_offset(width as int, x as int, y as int)),
        ({
            let i = pixel_offset(width as int, x as int, y as int);
            b <==> 3 <= hue_at(frame@, i) <= 36 && 30 <= brightest(frame@, i) <= 245 && spread_at_least(
                frame@,
                i,
                35,
            )
        }),
{
    proof {
        lemma_boot_pixel_exact(frame@, pixel_offset(width as int, x as int, y as int));
    }
    let i = idx(width, x, y);
    let (h, s, v) = hsv_like(frame[i + 2], frame[i + 1], frame[i]);
    (3 <= h && h <= 36) && s >= 35 && v >= 30 && v <= 245
}

/// Whether the pixel `(x, y)` of a BGRA frame has the cart's red colour.
pub fn red_color(frame: &[u8], width: i32, x: i32, y: i32) -> (b: bool)
    requires
        pixel_in_frame(frame@.len() as int, width as int, x as int, y as int),
    ensures
        b == red_pixel(frame@, pixel_offset(width as int, x as int, y as int)),
        ({
            let i = pixel_offset(width as int, x as int, y as int);
            b <==> ((0 <= hue_at(frame@, i) <= 20) || (150 <= hue_at(frame@, i) <= 179)) && 35 <= brightest(
                frame@,
                i,
            ) && spread_at_least(frame@, i, 45)
        }),
{
    proof {
        lemma_red_pixel_exact(frame@, pixel_offset(width as int, x as int, y as int));
    }
    let i = idx(width, x, y);
    let (h, s, v) = hsv_like(frame[i + 2], frame[i + 1], frame[i]);
    ((0 <= h && h <= 20) || (150 <= h && h <= 179)) && s >= 45 && v >= 35
}

/// Luma of a BGRA pixel at byte offset `i`, weighted 77/150/29 for red,
/// green and blue over 256.
pub open spec fn luma(frame: Seq<u8>, i: int) -> int {
    (77 * frame[i + 2] + 150 * frame[i + 1] + 29 * frame[i]) / 256
}

/// `old` resized to `n` elements: cut, or padded with zeros.
pub open spec fn resized(old: Seq<u8>, n: int) -> Seq<u8> {
    Seq::new(n as nat, |k: int| if k < old.len() { old[k] } else { 0u8 })
}

/// Converts a BGRA frame of `width` x `height` pixels into one gray byte per
/// pixel, row by row, in `out`, which is resized to `width * height` bytes.
pub fn bgra_to_gray(frame: &[u8], width: i32, height: i32, out: &mut Vec<u8>)
    requires
        0 <= width * height <= i32::MAX,
        (width > 0 && height > 0) ==> 4 * (width * height - 1) <= i32::MAX && 4 * (width * height - 1) + 2
            < frame@.len(),
    ensures
        final(out)@.len() == width * height,
        (width >= 0 && height >= 0) ==> forall|k: int|
            0 <= k < width * height ==> #[trigger] final(out)@[k] as int == luma(frame@, 4 * k),
        !(width >= 0 && height >= 0) ==> final(out)@ == resized(old(out)@, width * height),
{
    let n = (width * height) as usize;
    let ghost old_out = out@;
    out.resize(n, 0);
    if width < 0 || height < 0 {
        proof {
            assert(out@ =~= resized(old_out, width * height));
        }
        return;
    }
    let mut y: i32 = 0;
    while y < height
        invariant
            0 <= y <= height,
            0 <= width,
            n == width * height,
            n <= i32::MAX,
            (width > 0 && height > 0) ==> 4 * (width * height - 1) <= i32::MAX && 4 * (width * height - 1) + 2
                < frame@.len(),
            out@.len() == n,
            forall|k: int| 0 <= k < y * width ==> #[trigger] out@[k] as int == luma(frame@, 4 * k),
        decreases height - y,
    {
        let mut x: i32 = 0;
        while x < width
            invariant
                0 <= y < height,
                0 <= x <= width,
                n == width * height,
                n <= i32::MAX,
                (width > 0 && height > 0) ==> 4 * (width * height - 1) <= i32::MAX && 4 * (width * height - 1)
                    + 2 < frame@.len(),
                out@.len() == n,
                forall|k: int| 0 <= k < y * width + x ==> #[trigger] out@[k] as int == luma(frame@, 4 * k),
            decreases width - x,
        {
            assert(0 <= y * width && y * width + x <= width * height - 1) by (nonlinear_arith)
                requires 0 <= y < height, 0 <= x < width;
            let i = idx(width, x, y);
            let b = frame[i] as u32;
            let g = frame[i + 1] as u32;
            let r = frame[i + 2] as u32;
            let k = (y * width + x) as usize;
            out.set(k, ((77 * r + 150 * g + 29 * b) / 256) as u8);
            x += 1;
        }
        assert((y + 1) * width == y * width + width) by (nonlinear_arith);
        y += 1;
    }
}

} // verus!
