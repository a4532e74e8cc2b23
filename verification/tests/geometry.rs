use lib::geometry::{
    capture_buffer_len, capture_rects, clamp_rect_to_window, clip_roi, default_dota_boot_catcher_rect, intersect,
    CaptureError, Rect, Roi,
};

fn roi(x: i32, y: i32, w: i32, h: i32) -> Roi {
    Roi { x, y, w, h }
}

fn rect(left: i32, top: i32, width: i32, height: i32) -> Rect {
    Rect { left, top, width, height }
}

#[test]
fn intersect_overlapping_regions() {
    assert_eq!(intersect(roi(0, 0, 100, 100), roi(50, 40, 100, 100)), Some(roi(50, 40, 50, 60)));
}

#[test]
fn intersect_is_symmetric() {
    let a = roi(10, 20, 60, 70);
    let b = roi(30, 5, 100, 40);
    assert_eq!(intersect(a, b), intersect(b, a));
    assert_eq!(intersect(a, b), Some(roi(30, 20, 40, 25)));
}

#[test]
fn intersect_thin_overlap_is_none() {
    // exactly 8 pixels wide: refused
    assert_eq!(intersect(roi(0, 0, 10, 100), roi(2, 0, 100, 100)), None);
    // 9 pixels wide: kept
    assert_eq!(intersect(roi(0, 0, 11, 100), roi(2, 0, 100, 100)), Some(roi(2, 0, 9, 100)));
    // disjoint
    assert_eq!(intersect(roi(0, 0, 10, 10), roi(50, 50, 10, 10)), None);
}

#[test]
fn intersect_with_itself() {
    let a = roi(3, 4, 20, 30);
    assert_eq!(intersect(a, a), Some(a));
}

#[test]
fn clamp_keeps_inside_rect() {
    let r = rect(10, 20, 100, 200);
    assert_eq!(clamp_rect_to_window(r, 800, 600), r);
}

#[test]
fn clamp_moves_and_shrinks() {
    assert_eq!(clamp_rect_to_window(rect(-5, 700, 2000, 0), 800, 600), rect(0, 599, 800, 1));
    assert_eq!(clamp_rect_to_window(rect(700, 10, 500, 50), 800, 600), rect(700, 10, 100, 50));
}

#[test]
fn clamp_is_idempotent() {
    let once = clamp_rect_to_window(rect(900, -3, 7, 9000), 640, 480);
    assert_eq!(clamp_rect_to_window(once, 640, 480), once);
}

#[test]
fn default_crop_for_2048x1152_window() {
    assert_eq!(default_dota_boot_catcher_rect(2048, 1152), rect(682, 165, 688, 916));
}

#[test]
fn default_crop_rounds_halves_up() {
    // 500 * 0.333 = 166.5
    assert_eq!(default_dota_boot_catcher_rect(500, 1000).left, 167);
    assert_eq!(default_dota_boot_catcher_rect(1280, 720), rect(426, 103, 430, 572));
}

#[test]
fn capture_rects_refuses_small_window() {
    let w = rect(0, 0, 249, 800);
    assert_eq!(capture_rects(w, false, None), Err(CaptureError::WindowTooSmall(w)));
    let w = rect(0, 0, 800, 349);
    assert_eq!(capture_rects(w, true, None), Err(CaptureError::WindowTooSmall(w)));
}

#[test]
fn capture_rects_default_crop() {
    let w = rect(100, 50, 2048, 1152);
    assert_eq!(
        capture_rects(w, false, None),
        Ok((rect(682, 165, 688, 916), rect(782, 215, 688, 916)))
    );
}

#[test]
fn capture_rects_full_window() {
    let w = rect(10, 20, 1280, 720);
    assert_eq!(capture_rects(w, true, Some(rect(1, 1, 1, 1))), Ok((rect(0, 0, 1280, 720), w)));
}

#[test]
fn capture_rects_clamps_game_rect() {
    let w = rect(0, 0, 1000, 800);
    assert_eq!(
        capture_rects(w, false, Some(rect(900, 100, 500, 100))),
        Ok((rect(900, 100, 100, 100), rect(900, 100, 100, 100)))
    );
}

#[test]
fn capture_buffer_sizes() {
    assert_eq!(capture_buffer_len(688, 916), Ok(688 * 916 * 4));
    assert_eq!(capture_buffer_len(0, 10), Err(CaptureError::EmptyCapture));
    assert_eq!(capture_buffer_len(10, -1), Err(CaptureError::EmptyCapture));
}

#[test]
fn clip_search_region() {
    let base = roi(10, 10, 80, 60);
    // inside everything: unchanged
    assert_eq!(clip_roi(roi(20, 20, 30, 30), 100, 100, base), roi(20, 20, 30, 30));
    // cut by the frame and then by the base region
    assert_eq!(clip_roi(roi(-20, -20, 60, 60), 100, 100, base), roi(10, 10, 30, 30));
    // off the frame: the base region
    assert_eq!(clip_roi(roi(200, 200, 30, 30), 100, 100, base), base);
    // overlapping the frame but not the base region: the base region
    assert_eq!(clip_roi(roi(90, 0, 10, 100), 100, 100, base), base);
}
