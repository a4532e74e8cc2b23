use lib::blobs::{find_motion_blobs, Blob};
use lib::geometry::Roi;

struct Scene {
    w: usize,
    frame: Vec<u8>,
    gray: Vec<u8>,
    prev: Vec<u8>,
}

fn scene(w: usize, h: usize) -> Scene {
    Scene { w, frame: vec![0; w * h * 4], gray: vec![100; w * h], prev: vec![100; w * h] }
}

/// Marks a rectangle as a moving boot-coloured patch.
fn boot_patch(s: &mut Scene, x0: usize, y0: usize, pw: usize, ph: usize) {
    for y in y0..y0 + ph {
        for x in x0..x0 + pw {
            let i = y * s.w + x;
            s.frame[i * 4] = 0;
            s.frame[i * 4 + 1] = 100;
            s.frame[i * 4 + 2] = 200;
            s.gray[i] = 130;
        }
    }
}

#[test]
fn one_moving_boot() {
    let mut s = scene(40, 30);
    boot_patch(&mut s, 5, 4, 10, 9);
    let roi = Roi { x: 0, y: 0, w: 40, h: 30 };
    let blobs = find_motion_blobs(&s.frame, &s.gray, &s.prev, 40, roi, 20, 20);
    assert_eq!(
        blobs,
        vec![Blob { seed_x: 5, seed_y: 4, count: 90, min_x: 5, max_x: 14, min_y: 4, max_y: 12 }]
    );
}

#[test]
fn coordinates_are_relative_to_the_region() {
    let mut s = scene(40, 30);
    boot_patch(&mut s, 12, 10, 9, 9);
    let roi = Roi { x: 10, y: 8, w: 20, h: 20 };
    let blobs = find_motion_blobs(&s.frame, &s.gray, &s.prev, 40, roi, 20, 20);
    assert_eq!(
        blobs,
        vec![Blob { seed_x: 2, seed_y: 2, count: 81, min_x: 2, max_x: 10, min_y: 2, max_y: 10 }]
    );
}

#[test]
fn still_pixels_are_ignored() {
    let mut s = scene(40, 30);
    boot_patch(&mut s, 5, 4, 10, 9);
    // no change in gray: nothing moved
    let gray = s.prev.clone();
    let roi = Roi { x: 0, y: 0, w: 40, h: 30 };
    assert!(find_motion_blobs(&s.frame, &gray, &s.prev, 40, roi, 20, 20).is_empty());
    // a change of 17 is not enough
    let gray: Vec<u8> = s.gray.iter().map(|&g| if g == 130 { 117 } else { g }).collect();
    assert!(find_motion_blobs(&s.frame, &gray, &s.prev, 40, roi, 20, 20).is_empty());
    // a darkening of 18 counts
    let gray: Vec<u8> = s.gray.iter().map(|&g| if g == 130 { 82 } else { g }).collect();
    assert_eq!(find_motion_blobs(&s.frame, &gray, &s.prev, 40, roi, 20, 20).len(), 1);
}

#[test]
fn size_filters() {
    let roi = Roi { x: 0, y: 0, w: 60, h: 40 };
    // 7 pixels wide: too narrow
    let mut s = scene(60, 40);
    boot_patch(&mut s, 2, 2, 7, 10);
    assert!(find_motion_blobs(&s.frame, &s.gray, &s.prev, 60, roi, 30, 30).is_empty());
    // 6 x 6 = 36 pixels but 6 wide
    let mut s = scene(60, 40);
    boot_patch(&mut s, 2, 2, 6, 6);
    assert!(find_motion_blobs(&s.frame, &s.gray, &s.prev, 60, roi, 30, 30).is_empty());
    // wider than max_w
    let mut s = scene(60, 40);
    boot_patch(&mut s, 2, 2, 31, 8);
    assert!(find_motion_blobs(&s.frame, &s.gray, &s.prev, 60, roi, 30, 30).is_empty());
    // exactly max_w wide
    let mut s = scene(60, 40);
    boot_patch(&mut s, 2, 2, 30, 8);
    assert_eq!(find_motion_blobs(&s.frame, &s.gray, &s.prev, 60, roi, 30, 30).len(), 1);
}

#[test]
fn blobs_in_scan_order_and_connectivity() {
    let mut s = scene(60, 40);
    boot_patch(&mut s, 30, 2, 8, 8);
    boot_patch(&mut s, 2, 5, 8, 8);
    // an L shape joined through an edge is one blob
    boot_patch(&mut s, 40, 20, 8, 8);
    boot_patch(&mut s, 48, 27, 5, 1);
    let roi = Roi { x: 0, y: 0, w: 60, h: 40 };
    let blobs = find_motion_blobs(&s.frame, &s.gray, &s.prev, 60, roi, 30, 30);
    assert_eq!(
        blobs,
        vec![
            Blob { seed_x: 30, seed_y: 2, count: 64, min_x: 30, max_x: 37, min_y: 2, max_y: 9 },
            Blob { seed_x: 2, seed_y: 5, count: 64, min_x: 2, max_x: 9, min_y: 5, max_y: 12 },
            Blob { seed_x: 40, seed_y: 20, count: 69, min_x: 40, max_x: 52, min_y: 20, max_y: 27 },
        ]
    );
}

#[test]
fn diagonal_neighbours_are_separate() {
    let mut s = scene(60, 40);
    boot_patch(&mut s, 2, 2, 8, 8);
    boot_patch(&mut s, 10, 10, 8, 8);
    let roi = Roi { x: 0, y: 0, w: 60, h: 40 };
    let blobs = find_motion_blobs(&s.frame, &s.gray, &s.prev, 60, roi, 30, 30);
    assert_eq!(blobs.len(), 2);
    assert_eq!(blobs[1].seed_x, 10);
    assert_eq!(blobs[1].count, 64);
}

#[test]
fn empty_region() {
    let s = scene(10, 10);
    let roi = Roi { x: 0, y: 0, w: 0, h: 10 };
    assert!(find_motion_blobs(&s.frame, &s.gray, &s.prev, 10, roi, 30, 30).is_empty());
}
