//! Finding the moving boot: connected patches of pixels that changed since
//! the previous frame and have the boot's colour.

use vstd::prelude::*;
use vstd::set_lib::{lemma_len_subset, set_int_range};
use crate::color::{boot_color, boot_pixel, pixel_in_frame, pixel_offset};
use crate::geometry::Roi;
use crate::grid::{
    adjacent, closed_under, col, component, connected, first_of_component, lemma_closed_holds_component,
    lemma_connected_ends, lemma_connected_extend, lemma_connected_refl, lemma_connected_symmetric,
    lemma_neighbours, row,
};

verus! {

/// A connected patch of moving boot-coloured pixels inside a region of
/// interest, in coordinates relative to the region: the patch's first pixel
/// in row-by-row order, its pixel count and its bounding box.
#[derive(Clone, Copy, Debug, PartialEq, Eq, Structural)]
pub struct Blob {
    pub seed_x: i32,
    pub seed_y: i32,
    pub count: i32,
    pub min_x: i32,
    pub max_x: i32,
    pub min_y: i32,
    pub max_y: i32,
}

/// The gray level at `gi` changed by at least 18 since the previous frame.
pub open spec fn gray_moved(gray: Seq<u8>, prev: Seq<u8>, gi: int) -> bool {
    gray[gi] - prev[gi] >= 18 || prev[gi] - gray[gi] >= 18
}

/// The frame pixel `(x, y)` moved and has the boot's colour.
pub open spec fn moving_boot_at(
    frame: Seq<u8>,
    gray: Seq<u8>,
    prev: Seq<u8>,
    width: int,
    x: int,
    y: int,
) -> bool {
    gray_moved(gray, prev, y * width + x) && boot_pixel(frame, pixel_offset(width, x, y))
}

/// The pixels of the region, numbered row by row, that moved and have the
/// boot's colour.
pub open spec fn motion_mask(
    frame: Seq<u8>,
    gray: Seq<u8>,
    prev: Seq<u8>,
    width: int,
    roi: Roi,
) -> spec_fn(int) -> bool {
    |p: int| moving_boot_at(frame, gray, prev, width, roi.x + col(roi.w as int, p), roi.y + row(roi.w as int, p))
}

/// The frame pixel `(x, y)` can be examined: its coordinates and offsets
/// are computed within `i32`, it lies inside both gray images, and, when its
/// gray level moved, its colour bytes lie inside the frame.
pub open spec fn motion_pixel_ok(flen: int, gray: Seq<u8>, prev: Seq<u8>, width: int, x: int, y: int) -> bool {
    &&& i32::MIN <= x <= i32::MAX
    &&& i32::MIN <= y <= i32::MAX
    &&& i32::MIN <= y * width <= i32::MAX
    &&& i32::MIN <= y * width + x <= i32::MAX
    &&& 0 <= y * width + x
    &&& y * width + x < gray.len()
    &&& y * width + x < prev.len()
    &&& gray_moved(gray, prev, y * width + x) ==> pixel_in_frame(flen, width, x, y)
}

/// The pixel `(lx, ly)` of the region, in region coordinates, can be examined.
pub open spec fn roi_pixel_ok(flen: int, gray: Seq<u8>, prev: Seq<u8>, width: int, roi: Roi, lx: int, ly: int) -> bool {
    motion_pixel_ok(flen, gray, prev, width, roi.x + lx, roi.y + ly)
}

/// Every pixel of the region can be examined and the region's area fits in `i32`.
pub open spec fn roi_scannable(flen: int, gray: Seq<u8>, prev: Seq<u8>, width: int, roi: Roi) -> bool {
    &&& i32::MIN <= roi.w * roi.h <= i32::MAX
    &&& forall|lx: int, ly: int|
        0 <= lx < roi.w && 0 <= ly < roi.h ==> #[trigger] roi_pixel_ok(flen, gray, prev, width, roi, lx, ly)
}

pub open spec fn seed_index(w: int, b: Blob) -> int {
    b.seed_y * w + b.seed_x
}

pub open spec fn blob_width(b: Blob) -> int {
    b.max_x - b.min_x + 1
}

pub open spec fn blob_height(b: Blob) -> int {
    b.max_y - b.min_y + 1
}

/// `b` lists the pixels of the component that `b`'s seed starts: the seed is
/// the component's first pixel, `count` its number of pixels, and the
/// bounds its smallest and largest columns and rows.
pub open spec fn blob_describes(m: spec_fn(int) -> bool, w: int, n: int, b: Blob) -> bool {
    let c = component(m, w, n, seed_index(w, b));
    &&& 0 <= b.seed_x < w
    &&& 0 <= b.seed_y
    &&& first_of_component(m, w, n, seed_index(w, b))
    &&& b.count == c.len()
    &&& forall|q: int|
        #[trigger] c.contains(q) ==> b.min_x <= col(w, q) <= b.max_x && b.min_y <= row(w, q) <= b.max_y
    &&& exists|q: int| #[trigger] c.contains(q) && col(w, q) == b.min_x
    &&& exists|q: int| #[trigger] c.contains(q) && col(w, q) == b.max_x
    &&& exists|q: int| #[trigger] c.contains(q) && row(w, q) == b.min_y
    &&& exists|q: int| #[trigger] c.contains(q) && row(w, q) == b.max_y
}

/// A blob large enough to be the boot and no larger than the boot may appear:
/// at least 35 pixels, a bounding box at least 8 pixels in each direction
/// and at most `max_w` by `max_h`.
pub open spec fn blob_passes(b: Blob, max_w: int, max_h: int) -> bool {
    &&& b.count >= 35
    &&& blob_width(b) >= 8
    &&& blob_height(b) >= 8
    &&& blob_width(b) <= max_w
    &&& blob_height(b) <= max_h
}

/// A patch of fewer than 35 pixels is never of boot size, nor is one whose
/// bounding box is narrower or lower than 8 pixels, or wider than `max_w`,
/// or higher than `max_h`, whatever else holds of it.
pub proof fn lemma_undersized_patch_rejected(m: spec_fn(int) -> bool, w: int, n: int, b: Blob, max_w: int, max_h: int)
    requires
        blob_describes(m, w, n, b),
        component(m, w, n, seed_index(w, b)).len() < 35 || b.max_x - b.min_x < 7 || b.max_y - b.min_y < 7
            || b.max_x - b.min_x >= max_w || b.max_y - b.min_y >= max_h,
    ensures
        !blob_passes(b, max_w, max_h),
{
}

/// Two blobs that describe the component of the same seed are equal.
pub proof fn lemma_blob_unique(m: spec_fn(int) -> bool, w: int, n: int, a: Blob, b: Blob)
    requires
        blob_describes(m, w, n, a),
        blob_describes(m, w, n, b),
        a.seed_x == b.seed_x,
        a.seed_y == b.seed_y,
    ensures
        a == b,
{
    let c = component(m, w, n, seed_index(w, a));
    let q1 = choose|q: int| #[trigger] c.contains(q) && col(w, q) == a.min_x;
    let q2 = choose|q: int| #[trigger] c.contains(q) && col(w, q) == b.min_x;
    let q3 = choose|q: int| #[trigger] c.contains(q) && col(w, q) == a.max_x;
    let q4 = choose|q: int| #[trigger] c.contains(q) && col(w, q) == b.max_x;
    let q5 = choose|q: int| #[trigger] c.contains(q) && row(w, q) == a.min_y;
    let q6 = choose|q: int| #[trigger] c.contains(q) && row(w, q) == b.min_y;
    let q7 = choose|q: int| #[trigger] c.contains(q) && row(w, q) == a.max_y;
    let q8 = choose|q: int| #[trigger] c.contains(q) && row(w, q) == b.max_y;
    assert(c.contains(q1) && c.contains(q2) && c.contains(q3) && c.contains(q4));
    assert(c.contains(q5) && c.contains(q6) && c.contains(q7) && c.contains(q8));
}

/// A blob lies inside the region: its seed and bounding box are within the
/// region's columns and rows, and it has at least one pixel.
pub proof fn lemma_blob_inside_roi(m: spec_fn(int) -> bool, w: int, h: int, b: Blob)
    requires
        w > 0,
        h > 0,
        blob_describes(m, w, w * h, b),
    ensures
        0 <= b.min_x <= b.seed_x <= b.max_x < w,
        0 <= b.min_y <= b.seed_y <= b.max_y < h,
        b.count >= 1,
{
    let n = w * h;
    let s = seed_index(w, b);
    let c = component(m, w, n, s);
    lemma_connected_refl(m, w, n, s);
    assert(c.contains(s));
    vstd::arithmetic::div_mod::lemma_fundamental_div_mod_converse(s, w, b.seed_y as int, b.seed_x as int);
    assert forall|q: int| #[trigger] c.contains(q) implies 0 <= col(w, q) < w && 0 <= row(w, q) < h by {
        lemma_connected_ends(m, w, n, s, q);
        vstd::arithmetic::div_mod::lemma_mod_bound(q, w);
        vstd::arithmetic::div_mod::lemma_div_pos_is_pos(q, w);
        vstd::arithmetic::div_mod::lemma_multiply_divide_lt(q, w, h);
    }
    let q1 = choose|q: int| #[trigger] c.contains(q) && col(w, q) == b.min_x;
    let q2 = choose|q: int| #[trigger] c.contains(q) && col(w, q) == b.max_x;
    let q3 = choose|q: int| #[trigger] c.contains(q) && row(w, q) == b.min_y;
    let q4 = choose|q: int| #[trigger] c.contains(q) && row(w, q) == b.max_y;
    vstd::set_lib::lemma_int_range(0, n);
    assert forall|q: int| #[trigger] c.contains(q) implies set_int_range(0, n).contains(q) by {
        lemma_connected_ends(m, w, n, s, q);
    }
    vstd::set_lib::lemma_set_subset_finite(set_int_range(0, n), c);
    assert(c.len() != 0) by {
        if c.len() == 0 {
            assert(c =~= Set::<int>::empty());
        }
    }
}

proof fn lemma_component_closed(m: spec_fn(int) -> bool, w: int, n: int, s: int)
    ensures
        closed_under(m, w, n, component(m, w, n, s)),
{
    let c = component(m, w, n, s);
    assert forall|p: int, q: int| #[trigger] c.contains(p) && m(q) && adjacent(w, n, p, q) implies #[trigger] c.contains(q) by {
        lemma_connected_extend(m, w, n, s, p, q);
    }
}

/// Blobs with different seeds share no pixel: each pixel belongs to the
/// component of exactly one first pixel.
pub proof fn lemma_blobs_disjoint(m: spec_fn(int) -> bool, w: int, n: int, a: Blob, b: Blob, q: int)
    requires
        blob_describes(m, w, n, a),
        blob_describes(m, w, n, b),
        component(m, w, n, seed_index(w, a)).contains(q),
        component(m, w, n, seed_index(w, b)).contains(q),
    ensures
        seed_index(w, a) == seed_index(w, b),
{
    let sa = seed_index(w, a);
    let sb = seed_index(w, b);
    lemma_component_closed(m, w, n, sa);
    lemma_component_closed(m, w, n, sb);
    lemma_connected_symmetric(m, w, n, sb, q);
    lemma_closed_holds_component(m, w, n, component(m, w, n, sa), q, sb);
    lemma_connected_symmetric(m, w, n, sa, q);
    lemma_closed_holds_component(m, w, n, component(m, w, n, sb), q, sa);
}

fn moving_boot(frame: &[u8], gray: &[u8], prev: &[u8], width: i32, x: i32, y: i32) -> (b: bool)
    requires
        motion_pixel_ok(frame@.len() as int, gray@, prev@, width as int, x as int, y as int),
    ensures
        b == moving_boot_at(frame@, gray@, prev@, width as int, x as int, y as int),
{
    let gi = (y * width + x) as usize;
    let diff = gray[gi] as i32 - prev[gi] as i32;
    let moved = diff >= 18 || diff <= -18;
    moved && boot_color(frame, width, x, y)
}

/// The set pixels marked as visited.
pub open spec fn visited_set(v: Seq<bool>) -> Set<int> {
    Set::new(|i: int| 0 <= i < v.len() && v[i])
}

/// The grid indices of the pixels on the stack.
pub open spec fn stack_indices(w: int, st: Seq<(i32, i32)>) -> Seq<int> {
    Seq::new(st.len(), |i: int| st[i].1 * w + st[i].0)
}

/// What holds of the flood fill from seed `s` while it runs: `v0` is what
/// was visited before it started, `d` the pixels taken off the stack.
pub open spec fn flood_inv(
    m: spec_fn(int) -> bool,
    w: int,
    h: int,
    v0: Set<int>,
    visited: Seq<bool>,
    d: Set<int>,
    st: Seq<(i32, i32)>,
    s: int,
) -> bool {
    let n = w * h;
    let vs = visited_set(visited);
    let si = stack_indices(w, st);
    &&& visited.len() == n
    &&& v0.subset_of(vs)
    &&& forall|p: int| #[trigger] vs.contains(p) ==> v0.contains(p) || d.contains(p) || si.contains(p) || !m(p)
    &&& forall|i: int| 0 <= i < st.len() ==> 0 <= #[trigger] st[i].0 < w && 0 <= st[i].1 < h
    &&& forall|p: int| #[trigger] d.contains(p) ==> 0 <= p < n && !v0.contains(p) && vs.contains(p) && m(p) && connected(m, w, n, s, p) && !si.contains(p)
    &&& forall|i: int| 0 <= i < si.len() ==> 0 <= #[trigger] si[i] < n && !v0.contains(si[i]) && vs.contains(si[i]) && m(si[i]) && connected(m, w, n, s, si[i])
    &&& forall|i: int, j: int| 0 <= i < j < si.len() ==> si[i] != si[j]
    &&& d.contains(s) || si.contains(s)
    &&& d.finite()
}

/// Looks at the neighbour `(nx, ny)` of the pixel `p` during the flood fill:
/// an unvisited neighbour inside the region is marked visited, and pushed on
/// the stack when it is a moving boot pixel.
fn visit_neighbour(
    frame: &[u8],
    gray: &[u8],
    prev: &[u8],
    width: i32,
    roi: Roi,
    visited: &mut Vec<bool>,
    stack: &mut Vec<(i32, i32)>,
    nx: i32,
    ny: i32,
    Ghost(v0): Ghost<Set<int>>,
    Ghost(d): Ghost<Set<int>>,
    Ghost(s): Ghost<int>,
    Ghost(p): Ghost<int>,
)
    requires
        roi.w > 0,
        roi.h > 0,
        roi_scannable(frame@.len() as int, gray@, prev@, width as int, roi),
        flood_inv(motion_mask(frame@, gray@, prev@, width as int, roi), roi.w as int, roi.h as int, v0, old(visited)@, d, old(stack)@, s),
        connected(motion_mask(frame@, gray@, prev@, width as int, roi), roi.w as int, roi.w * roi.h, s, p),
        (0 <= nx < roi.w && 0 <= ny < roi.h) ==> adjacent(roi.w as int, roi.w * roi.h, p, ny * roi.w + nx),
    ensures
        flood_inv(motion_mask(frame@, gray@, prev@, width as int, roi), roi.w as int, roi.h as int, v0, final(visited)@, d, final(stack)@, s),
        visited_set(old(visited)@).subset_of(visited_set(final(visited)@)),
        final(stack)@.len() >= old(stack)@.len(),
        final(stack)@.subrange(0, old(stack)@.len() as int) == old(stack)@,
        (0 <= nx < roi.w && 0 <= ny < roi.h) ==> {
            let q = ny * roi.w + nx;
            let m = motion_mask(frame@, gray@, prev@, width as int, roi);
            &&& visited_set(final(visited)@).contains(q)
            &&& (m(q) && !v0.contains(q)) ==> (d.contains(q) || stack_indices(roi.w as int, final(stack)@).contains(q))
        },
{
    let ghost m = motion_mask(frame@, gray@, prev@, width as int, roi);
    let ghost w = roi.w as int;
    let ghost h = roi.h as int;
    let ghost n = w * h;
    let ghost old_st = stack@;
    let ghost old_vs = visited_set(visited@);
    if nx < 0 || ny < 0 || nx >= roi.w || ny >= roi.h {
        return;
    }
    proof {
        lemma_neighbours(w, h, nx as int, ny as int);
    }
    let ni = (ny * roi.w + nx) as usize;
    let ghost q = ni as int;
    if visited[ni] {
        proof {
            assert(old_vs.contains(q));
        }
        return;
    }
    visited.set(ni, true);
    proof {
        assert(visited_set(visited@) =~= old_vs.insert(q));
        assert(roi_pixel_ok(frame@.len() as int, gray@, prev@, width as int, roi, nx as int, ny as int));
    }
    let is_boot = moving_boot(frame, gray, prev, width, roi.x + nx, roi.y + ny);
    if is_boot {
        stack.push((nx, ny));
        proof {
            assert(m(q));
            lemma_connected_extend(m, w, n, s, p, q);
            let si = stack_indices(w, stack@);
            let osi = stack_indices(w, old_st);
            assert(si =~= osi.push(q));
            assert(si[si.len() - 1] == q);
            assert(si.contains(q));
            assert forall|x: int| #[trigger] osi.contains(x) implies si.contains(x) by {
                let k = choose|k: int| 0 <= k < osi.len() && osi[k] == x;
                assert(si[k] == x);
            }
        }
    } else {
        proof {
            assert(!m(q));
        }
    }
    proof {
        assert(stack@.subrange(0, old_st.len() as int) =~= old_st);
    }
}

/// Flood fill from the unvisited moving boot pixel `(sx, sy)`: marks its
/// whole component visited (and the non-mask pixels met on its border) and
/// returns the blob that describes it.
fn flood_blob(
    frame: &[u8],
    gray: &[u8],
    prev: &[u8],
    width: i32,
    roi: Roi,
    visited: &mut Vec<bool>,
    sx: i32,
    sy: i32,
) -> (b: Blob)
    requires
        roi.w > 0,
        roi.h > 0,
        roi_scannable(frame@.len() as int, gray@, prev@, width as int, roi),
        old(visited)@.len() == roi.w * roi.h,
        0 <= sx < roi.w,
        0 <= sy < roi.h,
        !visited_set(old(visited)@).contains(sy * roi.w + sx),
        motion_mask(frame@, gray@, prev@, width as int, roi)(sy * roi.w + sx),
        closed_under(
            motion_mask(frame@, gray@, prev@, width as int, roi),
            roi.w as int,
            roi.w * roi.h,
            visited_set(old(visited)@).filter(motion_mask(frame@, gray@, prev@, width as int, roi)),
        ),
    ensures
        final(visited)@.len() == old(visited)@.len(),
        b.seed_x == sx,
        b.seed_y == sy,
        ({
            let m = motion_mask(frame@, gray@, prev@, width as int, roi);
            let w = roi.w as int;
            let n = roi.w * roi.h;
            let c = component(m, w, n, sy * w + sx);
            &&& b.count == c.len()
            &&& forall|q: int|
                #[trigger] c.contains(q) ==> b.min_x <= col(w, q) <= b.max_x && b.min_y <= row(w, q) <= b.max_y
            &&& exists|q: int| #[trigger] c.contains(q) && col(w, q) == b.min_x
            &&& exists|q: int| #[trigger] c.contains(q) && col(w, q) == b.max_x
            &&& exists|q: int| #[trigger] c.contains(q) && row(w, q) == b.min_y
            &&& exists|q: int| #[trigger] c.contains(q) && row(w, q) == b.max_y
            &&& 0 <= b.min_x <= b.max_x < w
            &&& 0 <= b.min_y <= b.max_y < roi.h
            &&& 1 <= b.count <= n
            &&& visited_set(final(visited)@) =~= visited_set(old(visited)@).union(c).union(
                visited_set(final(visited)@).filter(|p: int| !m(p)),
            )
            &&& visited_set(old(visited)@).subset_of(visited_set(final(visited)@))
            &&& forall|p: int| #[trigger] c.contains(p) ==> !visited_set(old(visited)@).contains(p)
        }),
{
    let ghost m = motion_mask(frame@, gray@, prev@, width as int, roi);
    let ghost w = roi.w as int;
    let ghost h = roi.h as int;
    let ghost n = w * h;
    let ghost s = sy * w + sx;
    let ghost v0 = visited_set(visited@);
    proof {
        lemma_neighbours(w, h, sx as int, sy as int);
        lemma_connected_refl(m, w, n, s);
    }
    let mut stack: Vec<(i32, i32)> = Vec::new();
    stack.push((sx, sy));
    let li = (sy * roi.w + sx) as usize;
    visited.set(li, true);
    let ghost mut d: Set<int> = Set::empty();
    let mut count: i32 = 0;
    let mut min_x = sx;
    let mut max_x = sx;
    let mut min_y = sy;
    let mut max_y = sy;
    proof {
        assert(visited_set(visited@) =~= v0.insert(s));
        assert(stack_indices(w, stack@) =~= seq![s]);
        assert(stack_indices(w, stack@)[0] == s);
        assert(d.insert(s).contains(s));
        assert(col(w, s) == sx && row(w, s) == sy);
    }
    while stack.len() > 0
        invariant
            roi.w > 0,
            roi.h > 0,
            w == roi.w,
            h == roi.h,
            n == w * h,
            m == motion_mask(frame@, gray@, prev@, width as int, roi),
            roi_scannable(frame@.len() as int, gray@, prev@, width as int, roi),
            0 <= sx < w,
            0 <= sy < h,
            s == sy * w + sx,
            s % w == sx,
            s / w == sy,
            0 <= s < n,
            m(s),
            !v0.contains(s),
            closed_under(m, w, n, v0.filter(m)),
            flood_inv(m, w, h, v0, visited@, d, stack@, s),
            forall|p: int, q: int|
                #![trigger d.contains(p), adjacent(w, n, p, q)]
                d.contains(p) && m(q) && adjacent(w, n, p, q) ==> d.contains(q)
                    || stack_indices(w, stack@).contains(q),
            count == d.len(),
            d.subset_of(set_int_range(0, n)),
            forall|q: int|
                #[trigger] d.insert(s).contains(q) ==> min_x <= col(w, q) <= max_x && min_y <= row(w, q) <= max_y,
            exists|q: int| #[trigger] d.insert(s).contains(q) && col(w, q) == min_x,
            exists|q: int| #[trigger] d.insert(s).contains(q) && col(w, q) == max_x,
            exists|q: int| #[trigger] d.insert(s).contains(q) && row(w, q) == min_y,
            exists|q: int| #[trigger] d.insert(s).contains(q) && row(w, q) == max_y,
            0 <= min_x <= max_x < w,
            0 <= min_y <= max_y < h,
        decreases n - d.len(),
    {
        let ghost st_before = stack@;
        let ghost si_before = stack_indices(w, st_before);
        let (cx, cy) = match stack.pop() {
            Some(e) => e,
            None => (0, 0),
        };
        let ghost p = cy * w + cx;
        proof {
            assert(stack@ =~= st_before.drop_last());
            assert(si_before[si_before.len() - 1] == p);
            lemma_neighbours(w, h, cx as int, cy as int);
            assert(!d.contains(p));
            vstd::set_lib::lemma_int_range(0, n);
            lemma_len_subset(d.insert(p), set_int_range(0, n));
            assert(d.insert(p).len() == d.len() + 1);
            assert(stack_indices(w, stack@) =~= si_before.drop_last());
        }
        let ghost (omin_x, omax_x, omin_y, omax_y) = (min_x, max_x, min_y, max_y);
        count = count + 1;
        if cx < min_x {
            min_x = cx;
        }
        if cx > max_x {
            max_x = cx;
        }
        if cy < min_y {
            min_y = cy;
        }
        if cy > max_y {
            max_y = cy;
        }
        let ghost d_old = d;
        proof {
            d = d.insert(p);
            assert(d.insert(s) =~= d_old.insert(s).insert(p));
            assert(col(w, p) == cx && row(w, p) == cy);
            assert(d.insert(s).contains(p));
            let w1 = choose|q: int| #[trigger] d_old.insert(s).contains(q) && col(w, q) == omin_x;
            let w2 = choose|q: int| #[trigger] d_old.insert(s).contains(q) && col(w, q) == omax_x;
            let w3 = choose|q: int| #[trigger] d_old.insert(s).contains(q) && row(w, q) == omin_y;
            let w4 = choose|q: int| #[trigger] d_old.insert(s).contains(q) && row(w, q) == omax_y;
            assert(d.insert(s).contains(w1) && d.insert(s).contains(w2));
            assert(d.insert(s).contains(w3) && d.insert(s).contains(w4));
            // the popped pixel keeps every other stack entry distinct and out of d
            let si = stack_indices(w, stack@);
            assert forall|i: int| 0 <= i < si.len() implies #[trigger] si[i] != p by {
                assert(si[i] == si_before[i]);
            }
            assert forall|x: int| #[trigger] visited_set(visited@).contains(x) implies v0.contains(x) || d.contains(x)
                || si.contains(x) || !m(x) by {
                if si_before.contains(x) && x != p {
                    let k = choose|k: int| 0 <= k < si_before.len() && si_before[k] == x;
                    assert(k < si.len());
                    assert(si[k] == x);
                }
            }
            assert forall|x: int| #[trigger] d.contains(x) implies !si.contains(x) by {
                if x == p {
                } else {
                    if si.contains(x) {
                        let k = choose|k: int| 0 <= k < si.len() && si[k] == x;
                        assert(si_before[k] == x);
                    }
                }
            }
            assert(flood_inv(m, w, h, v0, visited@, d, stack@, s));
        }
        let ghost st_mid = stack@;
        proof {
            assert((cy + 1) * w + cx == p + w) by (nonlinear_arith)
                requires p == cy * w + cx;
            assert((cy - 1) * w + cx == p - w) by (nonlinear_arith)
                requires p == cy * w + cx;
        }
        visit_neighbour(frame, gray, prev, width, roi, visited, &mut stack, cx + 1, cy, Ghost(v0), Ghost(d), Ghost(s), Ghost(p));
        let ghost st1 = stack@;
        visit_neighbour(frame, gray, prev, width, roi, visited, &mut stack, cx - 1, cy, Ghost(v0), Ghost(d), Ghost(s), Ghost(p));
        let ghost st2 = stack@;
        visit_neighbour(frame, gray, prev, width, roi, visited, &mut stack, cx, cy + 1, Ghost(v0), Ghost(d), Ghost(s), Ghost(p));
        let ghost st3 = stack@;
        visit_neighbour(frame, gray, prev, width, roi, visited, &mut stack, cx, cy - 1, Ghost(v0), Ghost(d), Ghost(s), Ghost(p));
        proof {
            let si_mid = stack_indices(w, st_mid);
            let si1 = stack_indices(w, st1);
            let si2 = stack_indices(w, st2);
            let si3 = stack_indices(w, st3);
            let si = stack_indices(w, stack@);
            // stack entries present earlier are still present
            assert forall|x: int| #[trigger] si_mid.contains(x) implies si.contains(x) by {
                let k = choose|k: int| 0 <= k < si_mid.len() && si_mid[k] == x;
                assert(st1.subrange(0, st_mid.len() as int)[k] == st_mid[k]);
                assert(st2.subrange(0, st1.len() as int)[k] == st1[k]);
                assert(st3.subrange(0, st2.len() as int)[k] == st2[k]);
                assert(stack@.subrange(0, st3.len() as int)[k] == st3[k]);
                assert(si[k] == x);
            }
            assert forall|x: int| #[trigger] si1.contains(x) implies si.contains(x) by {
                let k = choose|k: int| 0 <= k < si1.len() && si1[k] == x;
                assert(st2.subrange(0, st1.len() as int)[k] == st1[k]);
                assert(st3.subrange(0, st2.len() as int)[k] == st2[k]);
                assert(stack@.subrange(0, st3.len() as int)[k] == st3[k]);
                assert(si[k] == x);
            }
            assert forall|x: int| #[trigger] si2.contains(x) implies si.contains(x) by {
                let k = choose|k: int| 0 <= k < si2.len() && si2[k] == x;
                assert(st3.subrange(0, st2.len() as int)[k] == st2[k]);
                assert(stack@.subrange(0, st3.len() as int)[k] == st3[k]);
                assert(si[k] == x);
            }
            assert forall|x: int| #[trigger] si3.contains(x) implies si.contains(x) by {
                let k = choose|k: int| 0 <= k < si3.len() && si3[k] == x;
                assert(stack@.subrange(0, st3.len() as int)[k] == st3[k]);
                assert(si[k] == x);
            }
            assert forall|a: int, q: int|
                #![trigger d.contains(a), adjacent(w, n, a, q)]
                d.contains(a) && m(q) && adjacent(w, n, a, q) implies d.contains(q)
                    || si.contains(q) by {
                if a == p {
                    if !v0.contains(q) {
                        assert(adjacent(w, w * h, cy * w + cx, q));
                        if q == p + 1 && cx + 1 < w {
                            assert(si1.contains(q) || d.contains(q));
                        } else if q == p - 1 && cx >= 1 {
                            assert(si2.contains(q) || d.contains(q));
                        } else if q == p + w && cy + 1 < h {
                            assert(si3.contains(q) || d.contains(q));
                        } else {
                            assert(q == p - w && cy >= 1);
                        }
                    } else {
                        assert(v0.filter(m).contains(q));
                        assert(adjacent(w, n, q, p));
                        assert(v0.filter(m).contains(p));
                    }
                } else {
                    assert(d_old.contains(a));
                    assert(d_old.contains(q) || si_before.contains(q));
                    if si_before.contains(q) && q != p {
                        let k = choose|k: int| 0 <= k < si_before.len() && si_before[k] == q;
                        assert(si_mid[k] == q);
                        assert(si_mid.contains(q));
                    }
                }
            }
        }
    }
    proof {
        let c = component(m, w, n, s);
        assert(stack_indices(w, stack@).len() == 0);
        assert(d.contains(s));
        assert(closed_under(m, w, n, d));
        assert forall|q: int| #[trigger] c.contains(q) implies d.contains(q) by {
            lemma_closed_holds_component(m, w, n, d, s, q);
        }
        assert(d =~= c);
        assert(d.insert(s) =~= d);
        vstd::set_lib::lemma_int_range(0, n);
        lemma_len_subset(d, set_int_range(0, n));
        let vs = visited_set(visited@);
        assert(vs =~= v0.union(c).union(vs.filter(|p: int| !m(p))));
    }
    Blob { seed_x: sx, seed_y: sy, count, min_x, max_x, min_y, max_y }
}

proof fn lemma_seed_coords(w: int, h: int, b: Blob, xx: int, yy: int)
    requires
        0 <= b.seed_x < w,
        0 <= b.seed_y,
        0 <= xx < w,
        0 <= yy < h,
        seed_index(w, b) == yy * w + xx,
    ensures
        b.seed_x == xx,
        b.seed_y == yy,
{
    let p = yy * w + xx;
    vstd::arithmetic::div_mod::lemma_fundamental_div_mod_converse(p, w, yy, xx);
    vstd::arithmetic::div_mod::lemma_fundamental_div_mod_converse(p, w, b.seed_y as int, b.seed_x as int);
}

/// The state of the row-by-row scan once every pixel before `pos` has been
/// looked at.
pub open spec fn scan_inv(
    m: spec_fn(int) -> bool,
    w: int,
    n: int,
    visited: Seq<bool>,
    blobs: Seq<Blob>,
    pos: int,
    max_w: int,
    max_h: int,
) -> bool {
    let vs = visited_set(visited);
    &&& visited.len() == n
    &&& forall|p: int| 0 <= p < pos ==> #[trigger] vs.contains(p)
    &&& closed_under(m, w, n, vs.filter(m))
    &&& forall|p: int| #[trigger] vs.contains(p) && m(p) ==> exists|q: int| 0 <= q < pos && #[trigger] connected(m, w, n, q, p)
    &&& forall|k: int|
        0 <= k < blobs.len() ==> blob_describes(m, w, n, #[trigger] blobs[k]) && blob_passes(blobs[k], max_w, max_h)
            && seed_index(w, blobs[k]) < pos
    &&& forall|k: int, l: int| 0 <= k < l < blobs.len() ==> seed_index(w, #[trigger] blobs[k]) < seed_index(w, #[trigger] blobs[l])
    &&& forall|b: Blob|
        #[trigger] blob_describes(m, w, n, b) && blob_passes(b, max_w, max_h) && seed_index(w, b) < pos ==> exists|k: int|
            0 <= k < blobs.len() && blobs[k] == b
}

/// Finds, inside `roi`, the connected patches (4-neighbour connectivity) of
/// pixels whose gray level changed by at least 18 since `prev` and whose
/// colour is the boot's, and returns those with at least 35 pixels whose
/// bounding box is at least 8 x 8 and at most `max_w` x `max_h`, in the
/// row-by-row order of their first pixels. Coordinates in the blobs are
/// relative to the region.
pub fn find_motion_blobs(
    frame: &[u8],
    gray: &[u8],
    prev: &[u8],
    width: i32,
    roi: Roi,
    max_w: i32,
    max_h: i32,
) -> (blobs: Vec<Blob>)
    requires
        roi_scannable(frame@.len() as int, gray@, prev@, width as int, roi),
    ensures
        ({
            let m = motion_mask(frame@, gray@, prev@, width as int, roi);
            let w = roi.w as int;
            let n = roi.w * roi.h;
            &&& forall|k: int|
                0 <= k < blobs@.len() ==> blob_describes(m, w, n, #[trigger] blobs@[k]) && blob_passes(
                    blobs@[k],
                    max_w as int,
                    max_h as int,
                )
            &&& forall|k: int, l: int|
                0 <= k < l < blobs@.len() ==> seed_index(w, #[trigger] blobs@[k]) < seed_index(w, #[trigger] blobs@[l])
            &&& forall|b: Blob|
                #[trigger] blob_describes(m, w, n, b) && blob_passes(b, max_w as int, max_h as int) ==> exists|k: int|
                    0 <= k < blobs@.len() && blobs@[k] == b
            &&& forall|k: int|
                0 <= k < blobs@.len() ==> 35 <= (#[trigger] blobs@[k]).count == component(
                    m,
                    w,
                    n,
                    seed_index(w, blobs@[k]),
                ).len() && 7 <= blobs@[k].max_x - blobs@[k].min_x < max_w && 7 <= blobs@[k].max_y
                    - blobs@[k].min_y < max_h
        }),
{
    let ghost m = motion_mask(frame@, gray@, prev@, width as int, roi);
    let ghost w = roi.w as int;
    let ghost h = roi.h as int;
    let ghost n = w * h;
    let mut blobs: Vec<Blob> = Vec::new();
    if roi.w <= 0 || roi.h <= 0 {
        proof {
            assert forall|b: Blob| #[trigger] blob_describes(m, w, n, b) && blob_passes(b, max_w as int, max_h as int) implies exists|k: int|
                0 <= k < blobs@.len() && blobs@[k] == b by {
                assert(w > 0);
                assert(w * h <= 0) by (nonlinear_arith)
                    requires w > 0, h <= 0;
                assert(0 <= seed_index(w, b)) by (nonlinear_arith)
                    requires 0 <= b.seed_x, 0 <= b.seed_y, w > 0;
            }
        }
        return blobs;
    }
    let total = (roi.w * roi.h) as usize;
    let mut visited: Vec<bool> = vec![false; total];
    proof {
        assert(visited_set(visited@) =~= Set::empty());
        assert(visited_set(visited@).filter(m) =~= Set::empty());
    }
    let mut yy: i32 = 0;
    while yy < roi.h
        invariant
            roi.w > 0,
            roi.h > 0,
            w == roi.w,
            h == roi.h,
            n == w * h,
            m == motion_mask(frame@, gray@, prev@, width as int, roi),
            roi_scannable(frame@.len() as int, gray@, prev@, width as int, roi),
            0 <= yy <= h,
            scan_inv(m, w, n, visited@, blobs@, yy * w, max_w as int, max_h as int),
        decreases h - yy,
    {
        let mut xx: i32 = 0;
        while xx < roi.w
            invariant
                roi.w > 0,
                roi.h > 0,
                w == roi.w,
                h == roi.h,
                n == w * h,
                m == motion_mask(frame@, gray@, prev@, width as int, roi),
                roi_scannable(frame@.len() as int, gray@, prev@, width as int, roi),
                0 <= yy < h,
                0 <= xx <= w,
                scan_inv(m, w, n, visited@, blobs@, yy * w + xx, max_w as int, max_h as int),
            decreases w - xx,
        {
            let ghost pos = yy * w + xx;
            let ghost vs = visited_set(visited@);
            let ghost old_blobs = blobs@;
            proof {
                lemma_neighbours(w, h, xx as int, yy as int);
            }
            let li = (yy * roi.w + xx) as usize;
            if visited[li] {
                proof {
                    assert(vs.contains(pos));
                    assert forall|b: Blob|
                        #[trigger] blob_describes(m, w, n, b) && blob_passes(b, max_w as int, max_h as int)
                            && seed_index(w, b) < pos + 1 implies exists|k: int|
                        0 <= k < blobs@.len() && blobs@[k] == b by {
                        if seed_index(w, b) == pos {
                            assert(first_of_component(m, w, n, pos));
                            let q = choose|q: int| 0 <= q < pos && #[trigger] connected(m, w, n, q, pos);
                            lemma_connected_symmetric(m, w, n, q, pos);
                        }
                    }
                }
            } else {
                proof {
                    assert(roi_pixel_ok(frame@.len() as int, gray@, prev@, width as int, roi, xx as int, yy as int));
                }
                let is_boot = moving_boot(frame, gray, prev, width, roi.x + xx, roi.y + yy);
                if is_boot {
                    proof {
                        assert(m(pos));
                        assert forall|t: int| connected(m, w, n, pos, t) implies pos <= t by {
                            if t < pos {
                                lemma_connected_ends(m, w, n, pos, t);
                                assert(vs.filter(m).contains(t));
                                lemma_connected_symmetric(m, w, n, pos, t);
                                lemma_closed_holds_component(m, w, n, vs.filter(m), t, pos);
                            }
                        }
                        assert(first_of_component(m, w, n, pos));
                    }
                    let b = flood_blob(frame, gray, prev, width, roi, &mut visited, xx, yy);
                    let bw = b.max_x - b.min_x + 1;
                    let bh = b.max_y - b.min_y + 1;
                    proof {
                        assert(seed_index(w, b) == pos);
                        assert(blob_describes(m, w, n, b));
                        let c = component(m, w, n, pos);
                        let vs2 = visited_set(visited@);
                        lemma_connected_refl(m, w, n, pos);
                        assert(c.contains(pos));
                        assert forall|p: int, q: int|
                            #[trigger] vs2.filter(m).contains(p) && m(q) && adjacent(w, n, p, q) implies #[trigger] vs2.filter(m).contains(q) by {
                            assert(vs2.contains(p));
                            if vs.contains(p) {
                                assert(vs.filter(m).contains(p));
                                assert(vs.filter(m).contains(q));
                            } else {
                                assert(c.contains(p));
                                lemma_connected_extend(m, w, n, pos, p, q);
                                assert(c.contains(q));
                            }
                        }
                        assert forall|p: int| #[trigger] vs2.contains(p) && m(p) implies exists|q: int|
                            0 <= q < pos + 1 && #[trigger] connected(m, w, n, q, p) by {
                            if vs.contains(p) {
                                let q = choose|q: int| 0 <= q < pos && #[trigger] connected(m, w, n, q, p);
                                assert(connected(m, w, n, q, p));
                            } else {
                                assert(c.contains(p));
                                assert(connected(m, w, n, pos, p));
                            }
                        }
                        assert forall|p: int| 0 <= p < pos + 1 implies #[trigger] vs2.contains(p) by {
                            if p < pos {
                                assert(vs.contains(p));
                            }
                        }
                    }
                    if !(b.count < 35 || bw < 8 || bh < 8 || bw > max_w || bh > max_h) {
                        blobs.push(b);
                        proof {
                            assert(blobs@ =~= old_blobs.push(b));
                            assert forall|k: int| 0 <= k < blobs@.len() implies blob_describes(m, w, n, #[trigger] blobs@[k]) && blob_passes(blobs@[k], max_w as int, max_h as int)
                                && seed_index(w, blobs@[k]) < pos + 1 by {
                                if k < old_blobs.len() {
                                    assert(blobs@[k] == old_blobs[k]);
                                }
                            }
                            assert forall|k: int, l: int| 0 <= k < l < blobs@.len() implies seed_index(w, #[trigger] blobs@[k]) < seed_index(w, #[trigger] blobs@[l]) by {
                                assert(blobs@[k] == old_blobs[k]);
                                if l < old_blobs.len() {
                                    assert(blobs@[l] == old_blobs[l]);
                                }
                            }
                        }
                    }
                    proof {
                        assert forall|b2: Blob|
                            #[trigger] blob_describes(m, w, n, b2) && blob_passes(b2, max_w as int, max_h as int)
                                && seed_index(w, b2) < pos + 1 implies exists|k: int|
                            0 <= k < blobs@.len() && blobs@[k] == b2 by {
                            if seed_index(w, b2) == pos {
                                lemma_seed_coords(w, h, b2, xx as int, yy as int);
                                lemma_blob_unique(m, w, n, b, b2);
                                assert(blobs@[blobs@.len() - 1] == b2);
                            } else {
                                let k = choose|k: int| 0 <= k < old_blobs.len() && old_blobs[k] == b2;
                                assert(blobs@[k] == b2);
                            }
                        }
                    }
                } else {
                    visited.set(li, true);
                    proof {
                        assert(!m(pos));
                        let vs2 = visited_set(visited@);
                        assert(vs2 =~= vs.insert(pos));
                        assert(vs2.filter(m) =~= vs.filter(m));
                        assert forall|p: int| #[trigger] vs2.contains(p) && m(p) implies exists|q: int|
                            0 <= q < pos + 1 && #[trigger] connected(m, w, n, q, p) by {
                            let q = choose|q: int| 0 <= q < pos && #[trigger] connected(m, w, n, q, p);
                            assert(connected(m, w, n, q, p));
                        }
                        assert forall|p: int| 0 <= p < pos + 1 implies #[trigger] vs2.contains(p) by {
                            if p < pos {
                                assert(vs.contains(p));
                            }
                        }
                    }
                }
            }
            xx = xx + 1;
        }
        proof {
            assert(yy * w + w == (yy + 1) * w) by (nonlinear_arith);
        }
        yy = yy + 1;
    }
    proof {
        assert(h * w == n) by (nonlinear_arith)
            requires n == w * h;
        assert forall|b: Blob| #[trigger] blob_describes(m, w, n, b) && blob_passes(b, max_w as int, max_h as int) implies exists|k: int|
            0 <= k < blobs@.len() && blobs@[k] == b by {
            assert(seed_index(w, b) < n);
        }
    }
    blobs
}

} // verus!
