use lib::cart::find_cart_center;
use lib::color::{bgra_to_gray, boot_color, hsv_like, idx, red_color};

/// A BGRA frame of `w` x `h` pixels, all set to the given colour.
fn frame(w: usize, h: usize, rgb: (u8, u8, u8)) -> Vec<u8> {
    let mut f = Vec::new();
    for _ in 0..w * h {
        f.push(rgb.2);
        f.push(rgb.1);
        f.push(rgb.0);
        f.push(255);
    }
    f
}

fn paint(f: &mut Vec<u8>, w: usize, x: usize, y: usize, rgb: (u8, u8, u8)) {
    let i = (y * w + x) * 4;
    f[i] = rgb.2;
    f[i + 1] = rgb.1;
    f[i + 2] = rgb.0;
}

#[test]
fn hsv_of_primaries() {
    assert_eq!(hsv_like(255, 0, 0), (0, 255, 255));
    assert_eq!(hsv_like(0, 255, 0), (60, 255, 255));
    assert_eq!(hsv_like(0, 0, 255), (120, 255, 255));
    assert_eq!(hsv_like(0, 0, 0), (0, 0, 0));
    assert_eq!(hsv_like(10, 10, 10), (0, 0, 10));
}

#[test]
fn hsv_orange_and_wrapped_hue() {
    assert_eq!(hsv_like(200, 100, 0), (15, 255, 200));
    // 30 * (0 - 100) / 255 = -11 (rounded toward zero), wrapped to 169
    assert_eq!(hsv_like(255, 0, 100), (169, 255, 255));
    // saturation: (200 - 50) * 255 / 200 = 191
    assert_eq!(hsv_like(50, 200, 100), (70, 191, 200));
}

#[test]
fn pixel_index() {
    assert_eq!(idx(10, 2, 3), 128);
    assert_eq!(idx(640, 0, 0), 0);
}

#[test]
fn boot_and_red_colours() {
    let mut f = frame(4, 1, (0, 0, 0));
    paint(&mut f, 4, 0, 0, (200, 100, 0)); // orange: boot
    paint(&mut f, 4, 1, 0, (255, 128, 0)); // too bright for the boot
    paint(&mut f, 4, 2, 0, (220, 20, 20)); // red: cart
    paint(&mut f, 4, 3, 0, (255, 0, 100)); // magenta-red, hue 169: cart
    assert!(boot_color(&f, 4, 0, 0));
    assert!(!boot_color(&f, 4, 1, 0));
    assert!(!boot_color(&f, 4, 2, 0));
    assert!(red_color(&f, 4, 2, 0));
    assert!(red_color(&f, 4, 3, 0));
    // hues 3..=20 count as both
    assert!(red_color(&f, 4, 0, 0));
    let g = frame(1, 1, (0, 200, 0));
    assert!(!red_color(&g, 1, 0, 0));
    assert!(!boot_color(&g, 1, 0, 0));
}

#[test]
fn gray_conversion() {
    let mut f = frame(2, 2, (0, 0, 0));
    paint(&mut f, 2, 0, 0, (255, 255, 255));
    paint(&mut f, 2, 1, 0, (255, 0, 0));
    paint(&mut f, 2, 0, 1, (0, 255, 0));
    paint(&mut f, 2, 1, 1, (0, 0, 255));
    let mut out = vec![9u8; 7];
    bgra_to_gray(&f, 2, 2, &mut out);
    // (77 r + 150 g + 29 b) / 256
    assert_eq!(out, vec![255, 76, 149, 28]);
}

fn cart_frame(runs: &[(usize, usize)]) -> Vec<u8> {
    let (w, h) = (100, 100);
    let mut f = frame(w, h, (0, 0, 0));
    for &(s, e) in runs {
        for x in s..e {
            for y in 80..90 {
                paint(&mut f, w, x, y, (220, 20, 20));
            }
        }
    }
    f
}

#[test]
fn cart_found_in_band() {
    let f = cart_frame(&[(40, 60)]);
    assert_eq!(find_cart_center(&f, 100, 100), Some((50, 88)));
}

#[test]
fn cart_none_without_red() {
    let f = frame(100, 100, (0, 0, 0));
    assert_eq!(find_cart_center(&f, 100, 100), None);
}

#[test]
fn cart_run_length_limits() {
    // 5 columns: shorter than 8 % of the width
    assert_eq!(find_cart_center(&cart_frame(&[(40, 45)]), 100, 100), None);
    // 40 columns: longer than 34 % of the width
    assert_eq!(find_cart_center(&cart_frame(&[(20, 60)]), 100, 100), None);
    // exactly 8 and exactly 34 columns are accepted
    assert_eq!(find_cart_center(&cart_frame(&[(40, 48)]), 100, 100), Some((44, 88)));
    assert_eq!(find_cart_center(&cart_frame(&[(20, 54)]), 100, 100), Some((37, 88)));
}

#[test]
fn cart_prefers_larger_run_then_first() {
    assert_eq!(find_cart_center(&cart_frame(&[(10, 20), (40, 60)]), 100, 100), Some((50, 88)));
    assert_eq!(find_cart_center(&cart_frame(&[(10, 30), (50, 70)]), 100, 100), Some((20, 88)));
}

#[test]
fn cart_ignores_margins_and_sparse_columns() {
    // red only in the side margin (columns 0..8 are not searched)
    assert_eq!(find_cart_center(&cart_frame(&[(0, 8)]), 100, 100), None);
    // only two red rows per column: not enough
    let (w, h) = (100, 100);
    let mut f = frame(w, h, (0, 0, 0));
    for x in 40..60 {
        for y in 80..82 {
            paint(&mut f, w, x, y, (220, 20, 20));
        }
    }
    assert_eq!(find_cart_center(&f, 100, 100), None);
}

#[test]
fn cart_run_reaching_edge_of_search_is_closed_by_margin() {
    // columns 80..92 end at the right margin (92 = 100 - 8), so the run is closed
    assert_eq!(find_cart_center(&cart_frame(&[(80, 100)]), 100, 100), Some((86, 88)));
}
