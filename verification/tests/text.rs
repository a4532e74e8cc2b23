use lib::geometry::Rect;
use lib::rect_spec::parse_rect_spec;
use lib::text::{contains_str, name_text, property_text};
use lib::windows::{
    find_window_by_title, property_byte_len, window_is_listed, WindowAttributes, WindowCandidate,
};

fn rect(left: i32, top: i32, width: i32, height: i32) -> Rect {
    Rect { left, top, width, height }
}

#[test]
fn game_rect_from_readme() {
    assert_eq!(parse_rect_spec("682,165,688,916"), Some(rect(682, 165, 688, 916)));
}

#[test]
fn game_rect_spaces_and_signs() {
    assert_eq!(parse_rect_spec(" 1 , 2 ,\t3, 4 "), Some(rect(1, 2, 3, 4)));
    assert_eq!(parse_rect_spec("-10,+20,30,40"), Some(rect(-10, 20, 30, 40)));
    assert_eq!(parse_rect_spec("-2147483648,2147483647,1,1"), Some(rect(i32::MIN, i32::MAX, 1, 1)));
}

#[test]
fn game_rect_refusals() {
    assert_eq!(parse_rect_spec("1,2,0,4"), None);
    assert_eq!(parse_rect_spec("1,2,3,-4"), None);
    assert_eq!(parse_rect_spec("1,2,3"), None);
    assert_eq!(parse_rect_spec("1,2,3,4,5"), None);
    assert_eq!(parse_rect_spec("a,2,3,4"), None);
    assert_eq!(parse_rect_spec("1,,3,4"), None);
    assert_eq!(parse_rect_spec("1,2,3,4,"), None);
    assert_eq!(parse_rect_spec(""), None);
    assert_eq!(parse_rect_spec("1,2,3,2147483648"), None);
    assert_eq!(parse_rect_spec("1,2,3,99999999999999999999"), None);
    assert_eq!(parse_rect_spec("1,2,3,-"), None);
    assert_eq!(parse_rect_spec("1 2,3,4,5"), None);
}

#[test]
fn substring_search() {
    assert!(contains_str("dota 2", "dota"));
    assert!(contains_str("dota 2", ""));
    assert!(contains_str("dota 2", "a 2"));
    assert!(!contains_str("dota 2", "Dota"));
    assert!(!contains_str("do", "dota"));
}

#[test]
fn property_text_trims_nuls() {
    assert_eq!(property_text(b"\0\0Dota 2\0"), Some("Dota 2".to_string()));
    assert_eq!(property_text(b"a\0b"), Some("a\0b".to_string()));
    assert_eq!(property_text(b"\0\0"), None);
    assert_eq!(property_text(b""), None);
    assert_eq!(property_text(&[0x44, 0xff, 0x00]), Some("D\u{fffd}".to_string()));
}

#[test]
fn name_text_empty_is_none() {
    assert_eq!(name_text(b"Steam"), Some("Steam".to_string()));
    assert_eq!(name_text(b""), None);
    assert_eq!(name_text(&[0xc3]), Some("\u{fffd}".to_string()));
}

fn cand(window: u64, title: Option<&str>, w: i32, h: i32, map_state: i32) -> WindowCandidate {
    WindowCandidate {
        window,
        title: title.map(|t| t.to_string()),
        attributes: Some(WindowAttributes { width: w, height: h, map_state }),
    }
}

#[test]
fn window_search_ignores_case() {
    let ws = vec![cand(1, Some("Steam"), 1000, 800, 2), cand(2, Some("DOTA 2"), 2048, 1152, 2)];
    assert_eq!(find_window_by_title("dota 2", &ws), Some(2));
    assert_eq!(find_window_by_title("Dota", &ws), Some(2));
}

#[test]
fn window_search_largest_then_first() {
    let ws = vec![
        cand(1, Some("Dota 2"), 400, 400, 2),
        cand(2, Some("Dota 2"), 800, 600, 2),
        cand(3, Some("Dota 2"), 600, 800, 2),
        cand(4, Some("Dota 2"), 4000, 4000, 0),
        cand(5, Some("Dota 2"), 299, 4000, 2),
        cand(6, None, 4000, 4000, 2),
        WindowCandidate { window: 7, title: Some("Dota 2".to_string()), attributes: None },
    ];
    assert_eq!(find_window_by_title("Dota 2", &ws), Some(2));
    assert_eq!(find_window_by_title("Counter", &ws), None);
    assert_eq!(find_window_by_title("Dota", &vec![]), None);
}

#[test]
fn window_area_saturates() {
    let ws = vec![cand(1, Some("Dota 2"), 100000, 100000, 2), cand(2, Some("Dota 2"), 200000, 200000, 2)];
    // both areas saturate at i32::MAX: the first wins
    assert_eq!(find_window_by_title("Dota 2", &ws), Some(1));
}

#[test]
fn listed_windows() {
    assert!(window_is_listed(&cand(1, Some("x"), 200, 100, 0)));
    assert!(!window_is_listed(&cand(1, Some("x"), 199, 100, 2)));
    assert!(!window_is_listed(&cand(1, None, 500, 500, 2)));
}

#[test]
fn property_lengths() {
    assert_eq!(property_byte_len(8, 10), 10);
    assert_eq!(property_byte_len(16, 10), 20);
    assert_eq!(property_byte_len(32, 10), 40);
    assert_eq!(property_byte_len(7, 10), 0);
}
