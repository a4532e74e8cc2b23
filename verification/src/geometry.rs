//! Rectangles and regions of interest: overlap, clamping into a window,
//! the default playfield crop and the choice of the capture area.

use vstd::prelude::*;

verus! {

/// A rectangle in window or screen coordinates: top-left corner and size.
#[derive(Clone, Copy, Debug, PartialEq, Eq, Structural)]
pub struct Rect {
    pub left: i32,
    pub top: i32,
    pub width: i32,
    pub height: i32,
}

/// A region of interest inside a captured frame.
#[derive(Clone, Copy, Debug, PartialEq, Eq, Structural)]
pub struct Roi {
    pub x: i32,
    pub y: i32,
    pub w: i32,
    pub h: i32,
}

pub open spec fn max_int(a: int, b: int) -> int {
    if a >= b { a } else { b }
}

pub open spec fn min_int(a: int, b: int) -> int {
    if a <= b { a } else { b }
}

/// `v` limited to the closed range `[lo, hi]` (for `lo <= hi`).
pub open spec fn clamp_int(v: int, lo: int, hi: int) -> int {
    if v < lo { lo } else if v > hi { hi } else { v }
}

/// Right edge (exclusive) of a region.
pub open spec fn roi_right(r: Roi) -> int {
    r.x + r.w
}

/// Bottom edge (exclusive) of a region.
pub open spec fn roi_bottom(r: Roi) -> int {
    r.y + r.h
}

/// The overlap of two regions, kept only when it is more than 8 pixels
/// wide and more than 8 pixels high.
pub open spec fn roi_overlap(a: Roi, b: Roi) -> Option<Roi> {
    let x0 = max_int(a.x as int, b.x as int);
    let y0 = max_int(a.y as int, b.y as int);
    let x1 = min_int(roi_right(a), roi_right(b));
    let y1 = min_int(roi_bottom(a), roi_bottom(b));
    if x1 <= x0 + 8 || y1 <= y0 + 8 {
        None
    } else {
        Some(Roi { x: x0 as i32, y: y0 as i32, w: (x1 - x0) as i32, h: (y1 - y0) as i32 })
    }
}

/// The arithmetic of `intersect` stays within `i32` on these inputs.
pub open spec fn overlap_fits(a: Roi, b: Roi) -> bool {
    let x0 = max_int(a.x as int, b.x as int);
    let y0 = max_int(a.y as int, b.y as int);
    let x1 = min_int(roi_right(a), roi_right(b));
    let y1 = min_int(roi_bottom(a), roi_bottom(b));
    &&& i32::MIN <= roi_right(a) <= i32::MAX
    &&& i32::MIN <= roi_right(b) <= i32::MAX
    &&& i32::MIN <= roi_bottom(a) <= i32::MAX
    &&& i32::MIN <= roi_bottom(b) <= i32::MAX
    &&& x0 + 8 <= i32::MAX
    &&& y0 + 8 <= i32::MAX
    &&& x1 - x0 <= i32::MAX
    &&& y1 - y0 <= i32::MAX
}

/// Overlap of two regions of interest; `None` when the overlap is 8 pixels
/// wide or high or less.
pub fn intersect(a: Roi, b: Roi) -> (r: Option<Roi>)
    requires
        overlap_fits(a, b),
    ensures
        r == roi_overlap(a, b),
{
    let x0 = if a.x >= b.x { a.x } else { b.x };
    let y0 = if a.y >= b.y { a.y } else { b.y };
    let ar = a.x + a.w;
    let br = b.x + b.w;
    let ab = a.y + a.h;
    let bb = b.y + b.h;
    let x1 = if ar <= br { ar } else { br };
    let y1 = if ab <= bb { ab } else { bb };
    if x1 <= x0 + 8 || y1 <= y0 + 8 {
        None
    } else {
        Some(Roi { x: x0, y: y0, w: x1 - x0, h: y1 - y0 })
    }
}

/// `r` lies inside `other`.
pub open spec fn roi_within(r: Roi, other: Roi) -> bool {
    &&& other.x <= r.x
    &&& other.y <= r.y
    &&& roi_right(r) <= roi_right(other)
    &&& roi_bottom(r) <= roi_bottom(other)
}

/// The overlap is the same whichever region comes first.
pub proof fn lemma_intersect_commutes(a: Roi, b: Roi)
    ensures
        roi_overlap(a, b) == roi_overlap(b, a),
{
}

/// An overlap that is returned lies inside both regions and is more than
/// 8 pixels in each direction.
pub proof fn lemma_intersect_within(a: Roi, b: Roi)
    requires
        overlap_fits(a, b),
        roi_overlap(a, b) is Some,
    ensures
        roi_within(roi_overlap(a, b)->0, a),
        roi_within(roi_overlap(a, b)->0, b),
        roi_overlap(a, b)->0.w > 8,
        roi_overlap(a, b)->0.h > 8,
{
}

/// A region intersected with itself is itself, when it is large enough.
pub proof fn lemma_intersect_self(a: Roi)
    requires
        overlap_fits(a, a),
        a.w > 8,
        a.h > 8,
    ensures
        roi_overlap(a, a) == Some(a),
{
}

/// The rectangle moved and shrunk so that it lies inside a window of the
/// given size, with at least one pixel in each direction.
pub open spec fn clamped_rect(r: Rect, window_width: int, window_height: int) -> Rect {
    let left = clamp_int(r.left as int, 0, window_width - 1);
    let top = clamp_int(r.top as int, 0, window_height - 1);
    Rect {
        left: left as i32,
        top: top as i32,
        width: clamp_int(r.width as int, 1, window_width - left) as i32,
        height: clamp_int(r.height as int, 1, window_height - top) as i32,
    }
}

/// `r` lies inside a window of the given size and is not empty.
pub open spec fn rect_inside_window(r: Rect, window_width: int, window_height: int) -> bool {
    &&& 0 <= r.left
    &&& 0 <= r.top
    &&& 1 <= r.width
    &&& 1 <= r.height
    &&& r.left + r.width <= window_width
    &&& r.top + r.height <= window_height
}

/// Moves and shrinks `r` so that it lies inside a window of the given size.
pub fn clamp_rect_to_window(r: Rect, window_width: i32, window_height: i32) -> (out: Rect)
    requires
        window_width >= 1,
        window_height >= 1,
    ensures
        out == clamped_rect(r, window_width as int, window_height as int),
        rect_inside_window(out, window_width as int, window_height as int),
{
    let mut r = r;
    r.left = clamp_i32(r.left, 0, window_width - 1);
    r.top = clamp_i32(r.top, 0, window_height - 1);
    r.width = clamp_i32(r.width, 1, window_width - r.left);
    r.height = clamp_i32(r.height, 1, window_height - r.top);
    r
}

fn clamp_i32(v: i32, lo: i32, hi: i32) -> (r: i32)
    requires
        lo <= hi,
    ensures
        r == clamp_int(v as int, lo as int, hi as int),
{
    if v < lo {
        lo
    } else if v > hi {
        hi
    } else {
        v
    }
}

/// Clamping a rectangle a second time changes nothing.
pub proof fn lemma_clamp_idempotent(r: Rect, window_width: int, window_height: int)
    requires
        1 <= window_width <= i32::MAX,
        1 <= window_height <= i32::MAX,
    ensures
        clamped_rect(clamped_rect(r, window_width, window_height), window_width, window_height)
            == clamped_rect(r, window_width, window_height),
{
}

/// A rectangle that already lies inside the window is left as it is.
pub proof fn lemma_clamp_keeps_inside(r: Rect, window_width: int, window_height: int)
    requires
        rect_inside_window(r, window_width, window_height),
    ensures
        clamped_rect(r, window_width, window_height) == r,
{
}

/// `n * per_mille / 1000`, rounded to the nearest integer, halves away
/// from zero.
pub open spec fn scale_per_mille(n: int, per_mille: int) -> int {
    let p = n * per_mille;
    if p >= 0 {
        (p + 500) / 1000
    } else {
        -((-p + 500) / 1000)
    }
}

fn scale_per_mille_exec(n: i32, per_mille: i64) -> (r: i32)
    requires
        0 <= per_mille <= 1000,
    ensures
        r == scale_per_mille(n as int, per_mille as int),
{
    assert(-2147483648 * 1000 <= (n as int) * (per_mille as int) <= 2147483647 * 1000)
        by (nonlinear_arith)
        requires
            0 <= per_mille <= 1000,
            i32::MIN <= n <= i32::MAX,
    ;
    let p: i64 = (n as i64) * per_mille;
    if p >= 0 {
        ((p + 500) / 1000) as i32
    } else {
        (-((-p + 500) / 1000)) as i32
    }
}

/// The Boot Catcher playfield inside the Dota window: a centred crop whose
/// left edge, top edge, width and height are 333, 143, 336 and 795
/// thousandths of the window's size, each rounded to the nearest pixel.
pub fn default_dota_boot_catcher_rect(window_width: i32, window_height: i32) -> (r: Rect)
    ensures
        r.left == scale_per_mille(window_width as int, 333),
        r.top == scale_per_mille(window_height as int, 143),
        r.width == scale_per_mille(window_width as int, 336),
        r.height == scale_per_mille(window_height as int, 795),
{
    Rect {
        left: scale_per_mille_exec(window_width, 333),
        top: scale_per_mille_exec(window_height, 143),
        width: scale_per_mille_exec(window_width, 336),
        height: scale_per_mille_exec(window_height, 795),
    }
}

/// Why no capture area could be chosen.
#[derive(Clone, Copy, Debug, PartialEq, Eq, Structural)]
pub enum CaptureError {
    /// The game window is narrower than 250 or lower than 350 pixels.
    WindowTooSmall(Rect),
    /// A capture area of zero or negative width or height.
    EmptyCapture,
}

/// The part of the window to capture, relative to the window: the whole
/// window, or the given crop (the default playfield crop when none is given)
/// moved and shrunk into the window.
pub open spec fn local_capture_rect(window: Rect, full_window: bool, game_rect: Option<Rect>) -> Rect {
    if full_window {
        Rect { left: 0, top: 0, width: window.width, height: window.height }
    } else {
        let r = match game_rect {
            Some(g) => g,
            None => Rect {
                left: scale_per_mille(window.width as int, 333) as i32,
                top: scale_per_mille(window.height as int, 143) as i32,
                width: scale_per_mille(window.width as int, 336) as i32,
                height: scale_per_mille(window.height as int, 795) as i32,
            },
        };
        clamped_rect(r, window.width as int, window.height as int)
    }
}

/// Chooses the capture area for a game window at `window` (screen
/// coordinates). Returns the area relative to the window and the same area
/// in screen coordinates; refuses windows smaller than 250 x 350.
pub fn capture_rects(window: Rect, full_window: bool, game_rect: Option<Rect>) -> (r: Result<(Rect, Rect), CaptureError>)
    requires
        !(window.width < 250 || window.height < 350) ==> window.left + local_capture_rect(
            window,
            full_window,
            game_rect,
        ).left <= i32::MAX && window.top + local_capture_rect(window, full_window, game_rect).top <= i32::MAX,
    ensures
        (window.width < 250 || window.height < 350) ==> r == Err::<(Rect, Rect), CaptureError>(
            CaptureError::WindowTooSmall(window),
        ),
        !(window.width < 250 || window.height < 350) ==> ({
            let local = local_capture_rect(window, full_window, game_rect);
            r == Ok::<(Rect, Rect), CaptureError>(
                (
                    local,
                    Rect {
                        left: (window.left + local.left) as i32,
                        top: (window.top + local.top) as i32,
                        width: local.width,
                        height: local.height,
                    },
                ),
            )
        }),
        r matches Ok((local, _)) ==> rect_inside_window(local, window.width as int, window.height as int),
{
    if window.width < 250 || window.height < 350 {
        return Err(CaptureError::WindowTooSmall(window));
    }
    let local = if full_window {
        Rect { left: 0, top: 0, width: window.width, height: window.height }
    } else {
        let r = match game_rect {
            Some(g) => g,
            None => default_dota_boot_catcher_rect(window.width, window.height),
        };
        clamp_rect_to_window(r, window.width, window.height)
    };
    let screen = Rect {
        left: window.left + local.left,
        top: window.top + local.top,
        width: local.width,
        height: local.height,
    };
    Ok((local, screen))
}

/// Size in bytes of the BGRA buffer for a `width` x `height` capture;
/// refuses an empty capture.
pub fn capture_buffer_len(width: i32, height: i32) -> (r: Result<usize, CaptureError>)
    requires
        (width >= 1 && height >= 1) ==> width * height * 4 <= i32::MAX,
    ensures
        (width < 1 || height < 1) ==> r == Err::<usize, CaptureError>(CaptureError::EmptyCapture),
        !(width < 1 || height < 1) ==> r == Ok::<usize, CaptureError>((width * height * 4) as usize),
{
    if width < 1 || height < 1 {
        return Err(CaptureError::EmptyCapture);
    }
    assert(0 < width * height) by (nonlinear_arith)
        requires width >= 1, height >= 1;
    Ok((width * height * 4) as usize)
}

/// The region `local` cut to the frame and then to `base`; `base` itself
/// when either overlap is too thin (see `roi_overlap`).
pub open spec fn clipped_roi(local: Roi, width: int, height: int, base: Roi) -> Roi {
    let frame = Roi { x: 0, y: 0, w: width as i32, h: height as i32 };
    match roi_overlap(local, frame) {
        Some(r) => match roi_overlap(r, base) {
            Some(r2) => r2,
            None => base,
        },
        None => base,
    }
}

/// Cuts a search region around a predicted position to the `width` x
/// `height` frame and to the base search region, falling back to the base
/// region when too little is left.
pub fn clip_roi(local: Roi, width: i32, height: i32, base: Roi) -> (r: Roi)
    requires
        overlap_fits(local, Roi { x: 0, y: 0, w: width, h: height }),
        roi_overlap(local, Roi { x: 0, y: 0, w: width, h: height }) matches Some(r1) ==> overlap_fits(r1, base),
    ensures
        r == clipped_roi(local, width as int, height as int, base),
{
    let frame = Roi { x: 0, y: 0, w: width, h: height };
    match intersect(local, frame) {
        Some(r1) => match intersect(r1, base) {
            Some(r2) => r2,
            None => base,
        },
        None => base,
    }
}

/// A clipped search region never leaves the base region, and when it is not
/// the base region itself it also lies inside the frame.
pub proof fn lemma_clip_within_base(local: Roi, width: int, height: int, base: Roi)
    requires
        overlap_fits(local, Roi { x: 0, y: 0, w: width as i32, h: height as i32 }),
        roi_overlap(local, Roi { x: 0, y: 0, w: width as i32, h: height as i32 }) matches Some(r1) ==> overlap_fits(r1, base),
        i32::MIN <= width <= i32::MAX,
        i32::MIN <= height <= i32::MAX,
    ensures
        roi_within(clipped_roi(local, width, height, base), base),
        clipped_roi(local, width, height, base) != base ==> roi_within(
            clipped_roi(local, width, height, base),
            Roi { x: 0, y: 0, w: width as i32, h: height as i32 },
        ),
{
    let frame = Roi { x: 0, y: 0, w: width as i32, h: height as i32 };
    if let Some(r1) = roi_overlap(local, frame) {
        lemma_intersect_within(local, frame);
        if let Some(r2) = roi_overlap(r1, base) {
            lemma_intersect_within(r1, base);
        }
    }
}

} // verus!
