//! Choosing the game window among the windows of the X server.

use vstd::prelude::*;
use crate::text::{contains_str, has_substring, lowercase, to_lowercase};

verus! {

/// What the window search reads of a window's attributes.
#[derive(Clone, Copy, Debug, PartialEq, Eq, Structural)]
pub struct WindowAttributes {
    pub width: i32,
    pub height: i32,
    pub map_state: i32,
}

/// A window with its title and attributes, each absent when the X server
/// gave none.
#[derive(Clone, Debug)]
pub struct WindowCandidate {
    pub window: u64,
    pub title: Option<String>,
    pub attributes: Option<WindowAttributes>,
}

/// `map_state` of a window that is mapped and viewable.
pub const IS_VIEWABLE: i32 = 2;

/// `a * b` for positive `a` and `b`, saturated at `i32::MAX`.
pub open spec fn saturated_area(a: WindowAttributes) -> int {
    if a.width * a.height > i32::MAX { i32::MAX as int } else { a.width * a.height }
}

/// The window's title contains `needle`, ignoring case, and it is viewable
/// and at least 300 x 300.
pub open spec fn title_window_matches(c: WindowCandidate, needle: Seq<char>) -> bool {
    match (c.title, c.attributes) {
        (Some(t), Some(a)) => {
            &&& has_substring(lowercase(t@), lowercase(needle))
            &&& a.map_state == IS_VIEWABLE
            &&& a.width >= 300
            &&& a.height >= 300
        },
        _ => false,
    }
}

pub open spec fn candidate_area(c: WindowCandidate) -> int {
    saturated_area(c.attributes->0)
}

/// Window `k` is the one to pick: it matches and has the largest area among
/// the matching windows, the first one where several share it.
pub open spec fn best_title_window(ws: Seq<WindowCandidate>, needle: Seq<char>, k: int) -> bool {
    &&& 0 <= k < ws.len()
    &&& title_window_matches(ws[k], needle)
    &&& forall|j: int|
        0 <= j < ws.len() && #[trigger] title_window_matches(ws[j], needle) ==> candidate_area(ws[j])
            <= candidate_area(ws[k]) && (j < k ==> candidate_area(ws[j]) < candidate_area(ws[k]))
}

fn area_saturating(a: &WindowAttributes) -> (r: i32)
    requires
        a.width >= 300,
        a.height >= 300,
    ensures
        r == saturated_area(*a),
{
    assert(0 < (a.width as int) * (a.height as int) <= 2147483647 * 2147483647) by (nonlinear_arith)
        requires 300 <= a.width <= 2147483647, 300 <= a.height <= 2147483647;
    let p: i64 = (a.width as i64) * (a.height as i64);
    if p > 2147483647 {
        2147483647
    } else {
        p as i32
    }
}

/// Picks the window to capture: among the windows whose title contains
/// `needle` (ignoring case) and that are viewable and at least 300 x 300,
/// the one with the largest area, the first one on a tie.
pub fn find_window_by_title(needle: &str, windows: &Vec<WindowCandidate>) -> (r: Option<u64>)
    ensures
        match r {
            None => forall|j: int| 0 <= j < windows@.len() ==> !#[trigger] title_window_matches(windows@[j], needle@),
            Some(id) => exists|k: int| #[trigger] best_title_window(windows@, needle@, k) && windows@[k].window == id,
        },
{
    let needle_l = to_lowercase(needle);
    let mut best: Option<(u64, i32)> = None;
    let ghost mut best_k: int = 0;
    let mut i: usize = 0;
    while i < windows.len()
        invariant
            0 <= i <= windows@.len(),
            needle_l@ == lowercase(needle@),
            match best {
                None => forall|j: int| 0 <= j < i ==> !#[trigger] title_window_matches(windows@[j], needle@),
                Some((id, area)) => {
                    &&& 0 <= best_k < i
                    &&& windows@[best_k].window == id
                    &&& area == candidate_area(windows@[best_k])
                    &&& title_window_matches(windows@[best_k], needle@)
                    &&& forall|j: int|
                        0 <= j < i && #[trigger] title_window_matches(windows@[j], needle@) ==> candidate_area(windows@[j])
                            <= area && (j < best_k ==> candidate_area(windows@[j]) < area)
                },
            },
        decreases windows@.len() - i,
    {
        let c = &windows[i];
        let mut matched = false;
        let mut area: i32 = 0;
        match &c.title {
            None => {},
            Some(title) => {
                let title_l = to_lowercase(title.as_str());
                if contains_str(title_l.as_str(), needle_l.as_str()) {
                    match &c.attributes {
                        None => {},
                        Some(a) => {
                            if a.map_state == IS_VIEWABLE && a.width >= 300 && a.height >= 300 {
                                matched = true;
                                area = area_saturating(a);
                            }
                        },
                    }
                }
            },
        }
        proof {
            assert(matched == title_window_matches(windows@[i as int], needle@));
        }
        if matched {
            let replace = match best {
                None => true,
                Some((_, best_area)) => area > best_area,
            };
            if replace {
                best = Some((c.window, area));
                proof {
                    best_k = i as int;
                }
            }
        }
        i = i + 1;
    }
    match best {
        None => None,
        Some((id, _)) => {
            proof {
                assert(best_title_window(windows@, needle@, best_k));
            }
            Some(id)
        },
    }
}

/// Windows that `--list-windows` prints: those with a title and attributes
/// that are at least 200 x 100.
pub fn window_is_listed(c: &WindowCandidate) -> (b: bool)
    ensures
        b == (c.title is Some && c.attributes is Some && c.attributes->0.width >= 200
            && c.attributes->0.height >= 100),
{
    match (&c.title, &c.attributes) {
        (Some(_), Some(a)) => a.width >= 200 && a.height >= 100,
        _ => false,
    }
}

/// Length in bytes of a window property of `nitems` items of `format` bits
/// each: 8, 16 and 32 bits per item are read; other formats hold nothing.
pub fn property_byte_len(format: i32, nitems: usize) -> (len: usize)
    requires
        format == 16 ==> nitems * 2 <= usize::MAX,
        format == 32 ==> nitems * 4 <= usize::MAX,
    ensures
        len == if format == 8 {
            nitems as int
        } else if format == 16 {
            nitems * 2
        } else if format == 32 {
            nitems * 4
        } else {
            0
        },
{
    if format == 8 {
        nitems
    } else if format == 16 {
        nitems * 2
    } else if format == 32 {
        nitems * 4
    } else {
        0
    }
}

} // verus!
