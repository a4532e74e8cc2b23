//! Finding the cart: the widest-scoring run of red columns in the lower band
//! of a frame.

use vstd::prelude::*;
use crate::color::{
    div_trunc, lemma_red_pixel_exact, pixel_in_frame, pixel_offset, red_color, red_pixel, spread_at_least,
};

verus! {

/// `n * per_cent / 100`, rounded toward zero.
pub open spec fn per_cent(n: int, per_cent: int) -> int {
    div_trunc(n * per_cent, 100)
}

fn per_cent_exec(n: i32, pc: i64) -> (r: i32)
    requires
        0 <= pc <= 100,
    ensures
        r == per_cent(n as int, pc as int),
{
    assert(-2147483648 * 100 <= (n as int) * (pc as int) <= 2147483647 * 100)
        by (nonlinear_arith)
        requires
            0 <= pc <= 100,
            i32::MIN <= n <= i32::MAX,
    ;
    let p: i64 = (n as i64) * pc;
    assert(p >= 0 ==> p / 100 <= i32::MAX) by (nonlinear_arith)
        requires p <= 2147483647 * 100;
    assert(p < 0 ==> (-p) / 100 <= 2147483648) by (nonlinear_arith)
        requires -p <= 2147483648 * 100;
    if p >= 0 {
        (p / 100) as i32
    } else {
        (-((-p) / 100)) as i32
    }
}

/// First row of the band where the cart is searched: 79 % of the height.
pub open spec fn cart_band_top(height: int) -> int {
    per_cent(height, 79)
}

/// End (exclusive) of the band where the cart is searched: 91 % of the height.
pub open spec fn cart_band_bottom(height: int) -> int {
    per_cent(height, 91)
}

/// Columns this close to either side of the frame are not searched: 8 % of
/// the width. It is also the shortest run of red columns that counts as the cart.
pub open spec fn cart_margin(width: int) -> int {
    per_cent(width, 8)
}

/// The longest run of red columns that counts as the cart: 34 % of the width.
pub open spec fn cart_max_len(width: int) -> int {
    per_cent(width, 34)
}

/// The row reported as the cart's centre: 88 % of the height.
pub open spec fn cart_row(height: int) -> int {
    per_cent(height, 88)
}

/// Number of rows `y` in `ylo..yhi` at which column `x` is red.
pub open spec fn red_rows(frame: Seq<u8>, width: int, x: int, ylo: int, yhi: int) -> int
    decreases yhi - ylo,
{
    if yhi <= ylo {
        0
    } else {
        red_rows(frame, width, x, ylo, yhi - 1) + if red_pixel(
            frame,
            pixel_offset(width, x, yhi - 1),
        ) {
            1int
        } else {
            0int
        }
    }
}

/// Red pixels counted in column `x` within the cart band; columns in the
/// side margins count nothing.
pub open spec fn column_count(frame: Seq<u8>, width: int, height: int, x: int) -> int {
    let m = cart_margin(width);
    if m <= x < width - m {
        red_rows(frame, width, x, cart_band_top(height), cart_band_bottom(height))
    } else {
        0
    }
}

/// The red-pixel count of every column of the frame.
pub open spec fn cart_columns(frame: Seq<u8>, width: int, height: int) -> Seq<i32> {
    Seq::new(width as nat, |x: int| column_count(frame, width, height, x) as i32)
}

/// A column with at least three red pixels.
pub open spec fn active(c: Seq<i32>, x: int) -> bool {
    c[x] >= 3
}

/// `s..e` is a maximal run of active columns that ends before the last
/// column: every column in it is active, column `e` is not, and the run
/// cannot be extended to the left.
pub open spec fn closed_run(c: Seq<i32>, s: int, e: int) -> bool {
    &&& 0 <= s < e < c.len()
    &&& forall|i: int| s <= i < e ==> #[trigger] active(c, i)
    &&& !active(c, e)
    &&& (s == 0 || !active(c, s - 1))
}

/// A closed run whose length lies in `lo..=hi`.
pub open spec fn cart_run(c: Seq<i32>, lo: int, hi: int, s: int, e: int) -> bool {
    closed_run(c, s, e) && lo <= e - s <= hi
}

/// Sum of the counts in columns `s..e`.
pub open spec fn sum_range(c: Seq<i32>, s: int, e: int) -> int
    decreases e - s,
{
    if e <= s {
        0
    } else {
        sum_range(c, s, e - 1) + c[e - 1]
    }
}

/// `s..e` is the cart: the run of the right length with the largest total,
/// the first one where several share it.
pub open spec fn best_cart_run(c: Seq<i32>, lo: int, hi: int, s: int, e: int) -> bool {
    &&& cart_run(c, lo, hi, s, e)
    &&& forall|s2: int, e2: int|
        #[trigger] cart_run(c, lo, hi, s2, e2) ==> sum_range(c, s2, e2) <= sum_range(c, s, e) && (
        e2 < e ==> sum_range(c, s2, e2) < sum_range(c, s, e))
}

/// Two closed runs that end at the same column start at the same column.
proof fn lemma_closed_run_unique(c: Seq<i32>, s1: int, s2: int, e: int)
    requires
        closed_run(c, s1, e),
        closed_run(c, s2, e),
    ensures
        s1 == s2,
{
    if s1 < s2 {
        assert(active(c, s2 - 1));
    } else if s2 < s1 {
        assert(active(c, s1 - 1));
    }
}

proof fn lemma_sum_range_bounds(c: Seq<i32>, s: int, e: int, bound: int)
    requires
        0 <= s <= e <= c.len(),
        forall|i: int| 0 <= i < c.len() ==> 0 <= #[trigger] c[i] <= bound,
    ensures
        0 <= sum_range(c, s, e) <= (e - s) * bound,
    decreases e - s,
{
    if e > s {
        lemma_sum_range_bounds(c, s, e - 1, bound);
        assert((e - 1 - s) * bound + bound == (e - s) * bound) by (nonlinear_arith);
    } else {
        assert((e - s) * bound == 0) by (nonlinear_arith)
            requires e == s;
    }
}

/// There is at most one cart: the best run is unique.
pub proof fn lemma_best_cart_run_unique(c: Seq<i32>, lo: int, hi: int, s1: int, e1: int, s2: int, e2: int)
    requires
        best_cart_run(c, lo, hi, s1, e1),
        best_cart_run(c, lo, hi, s2, e2),
    ensures
        s1 == s2 && e1 == e2,
{
    assert(cart_run(c, lo, hi, s2, e2));
    assert(cart_run(c, lo, hi, s1, e1));
    if e1 == e2 {
        lemma_closed_run_unique(c, s1, s2, e1);
    }
}

/// Finds the run of active columns that is the cart (see `best_cart_run`).
fn best_active_run(counts: &Vec<i32>, lo: i32, hi: i32, bound: i32) -> (r: Option<(i32, i32)>)
    requires
        counts@.len() <= i32::MAX,
        0 <= bound,
        counts@.len() * bound <= i32::MAX,
        forall|i: int| 0 <= i < counts@.len() ==> 0 <= #[trigger] counts@[i] <= bound,
    ensures
        match r {
            None => forall|s: int, e: int| !#[trigger] cart_run(counts@, lo as int, hi as int, s, e),
            Some((s, e)) => best_cart_run(counts@, lo as int, hi as int, s as int, e as int),
        },
{
    let ghost c = counts@;
    let n = counts.len() as i32;
    let mut best: Option<(i32, i32, i32)> = None;
    let mut start: Option<i32> = None;
    let mut x: i32 = 0;
    while x < n
        invariant
            c == counts@,
            n == c.len(),
            0 <= x <= n,
            0 <= bound,
            c.len() * bound <= i32::MAX,
            forall|i: int| 0 <= i < c.len() ==> 0 <= #[trigger] c[i] <= bound,
            match start {
                Some(s) => 0 <= s < x && (forall|i: int| s <= i < x ==> #[trigger] active(c, i)) && (
                s == 0 || !active(c, s - 1)),
                None => x == 0 || !active(c, x - 1),
            },
            match best {
                Some((bs, be, bsum)) => {
                    &&& cart_run(c, lo as int, hi as int, bs as int, be as int)
                    &&& be < x
                    &&& bsum == sum_range(c, bs as int, be as int)
                    &&& forall|s2: int, e2: int|
                        #[trigger] cart_run(c, lo as int, hi as int, s2, e2) && e2 < x ==> sum_range(
                            c,
                            s2,
                            e2,
                        ) <= bsum && (e2 < be ==> sum_range(c, s2, e2) < bsum)
                },
                None => forall|s2: int, e2: int|
                    #[trigger] cart_run(c, lo as int, hi as int, s2, e2) ==> e2 >= x,
            },
        decreases n - x,
    {
        let is_active = counts[x as usize] >= 3;
        match start {
            None => {
                if is_active {
                    start = Some(x);
                }
                proof {
                    assert forall|s2: int, e2: int|
                        cart_run(c, lo as int, hi as int, s2, e2) && e2 == x implies false by {
                        if !is_active {
                            assert(active(c, e2 - 1));
                        }
                    }
                }
            },
            Some(s) => {
                if !is_active {
                    let len = x - s;
                    if lo <= len && len <= hi {
                        let mut sum: i32 = 0;
                        let mut i: i32 = s;
                        proof {
                            lemma_sum_range_bounds(c, s as int, x as int, bound as int);
                        }
                        while i < x
                            invariant
                                c == counts@,
                                0 <= s <= i <= x < c.len(),
                                sum == sum_range(c, s as int, i as int),
                                sum_range(c, s as int, x as int) <= (x - s) * bound,
                                0 <= bound,
                                c.len() * bound <= i32::MAX,
                                forall|k: int| 0 <= k < c.len() ==> 0 <= #[trigger] c[k] <= bound,
                            decreases x - i,
                        {
                            proof {
                                lemma_sum_range_bounds(c, s as int, i + 1, bound as int);
                                lemma_sum_range_bounds(c, i + 1, x as int, bound as int);
                                lemma_sum_split(c, s as int, i + 1, x as int);
                                assert((x - s) * bound <= c.len() * bound) by (nonlinear_arith)
                                    requires 0 <= x - s <= c.len(), 0 <= bound;
                            }
                            sum = sum + counts[i as usize];
                            i = i + 1;
                        }
                        proof {
                            assert(closed_run(c, s as int, x as int));
                            assert(cart_run(c, lo as int, hi as int, s as int, x as int));
                        }
                        let replace = match best {
                            None => true,
                            Some((_, _, bsum)) => sum > bsum,
                        };
                        let ghost old_best = best;
                        if replace {
                            best = Some((s, x, sum));
                        }
                        proof {
                            assert forall|s2: int, e2: int|
                                #[trigger] cart_run(c, lo as int, hi as int, s2, e2) && e2 == x implies s2
                                == s by {
                                lemma_closed_run_unique(c, s2, s as int, x as int);
                            }
                        }
                    } else {
                        proof {
                            assert forall|s2: int, e2: int|
                                cart_run(c, lo as int, hi as int, s2, e2) && e2 == x implies false by {
                                assert(closed_run(c, s as int, x as int));
                                lemma_closed_run_unique(c, s2, s as int, x as int);
                            }
                        }
                    }
                    start = None;
                } else {
                    proof {
                        assert forall|s2: int, e2: int|
                            cart_run(c, lo as int, hi as int, s2, e2) && e2 == x implies false by {
                        }
                    }
                }
            },
        }
        x = x + 1;
    }
    match best {
        None => None,
        Some((bs, be, _)) => Some((bs, be)),
    }
}

proof fn lemma_band_empty_when_negative(height: int)
    requires
        height < 0,
    ensures
        cart_band_bottom(height) <= cart_band_top(height),
{
    assert((-(height * 79)) / 100 <= (-(height * 91)) / 100) by (nonlinear_arith)
        requires height < 0;
}

proof fn lemma_band_within_frame(height: int)
    requires
        height >= 0,
    ensures
        0 <= cart_band_top(height),
        cart_band_bottom(height) <= height,
{
    assert(0 <= (height * 79) / 100) by (nonlinear_arith)
        requires height >= 0;
    assert((height * 91) / 100 <= height) by (nonlinear_arith)
        requires height >= 0;
}

proof fn lemma_margin_bounds(width: int)
    requires
        width >= 0,
    ensures
        0 <= cart_margin(width) <= width,
{
    assert(0 <= (width * 8) / 100 <= width) by (nonlinear_arith)
        requires width >= 0;
}

/// Every pixel of the cart band in the searched columns can be read.
pub open spec fn cart_band_readable(len: int, width: int, height: int) -> bool {
    forall|x: int, y: int|
        cart_margin(width) <= x < width - cart_margin(width) && cart_band_top(height) <= y < cart_band_bottom(
            height,
        ) ==> #[trigger] pixel_in_frame(len, width, x, y)
}

/// Most red pixels a column can count: the height of the band when there
/// are columns to search, else 0.
pub open spec fn cart_count_bound(width: int, height: int) -> int {
    if cart_margin(width) < width - cart_margin(width) && cart_band_top(height) < cart_band_bottom(height) {
        cart_band_bottom(height) - cart_band_top(height)
    } else {
        0
    }
}

proof fn lemma_count_bound_fits(len: int, width: int, height: int)
    requires
        0 <= width,
        cart_band_readable(len, width, height),
    ensures
        0 <= cart_count_bound(width, height),
        width * cart_count_bound(width, height) <= i32::MAX / 4,
        cart_count_bound(width, height) > 0 ==> width <= i32::MAX / 4,
{
    let m = cart_margin(width);
    let y0 = cart_band_top(height);
    let y1 = cart_band_bottom(height);
    if m < width - m && y0 < y1 {
        if height < 0 {
            lemma_band_empty_when_negative(height);
        }
        lemma_band_within_frame(height);
        if y0 == 0 {
            assert(height * 79 < 100);
            assert(height * 91 < 200) by (nonlinear_arith)
                requires height * 79 < 100, height >= 0;
            assert(height <= 1) by (nonlinear_arith)
                requires height * 79 < 100, height >= 0;
            assert((height * 91) / 100 == 0);
        }
        assert(pixel_in_frame(len, width, m, y1 - 1));
        assert(width * (y1 - y0) <= (y1 - 1) * width + m) by (nonlinear_arith)
            requires 0 <= m, 1 <= y0 < y1, 0 <= width;
        assert(width <= (y1 - 1) * width + m) by (nonlinear_arith)
            requires 0 <= m, 1 <= y0 < y1, 0 <= width;
    } else {
        assert(width * 0 == 0);
    }
}

/// Counts, for every column, the red pixels in the cart band (see `column_count`).
fn cart_column_counts(frame: &[u8], width: i32, height: i32) -> (counts: Vec<i32>)
    requires
        0 <= width,
        cart_band_readable(frame@.len() as int, width as int, height as int),
    ensures
        counts@ == cart_columns(frame@, width as int, height as int),
        forall|i: int|
            0 <= i < counts@.len() ==> 0 <= #[trigger] counts@[i] <= cart_count_bound(width as int, height as int),
{
    let y0 = per_cent_exec(height, 79);
    let y1 = per_cent_exec(height, 91);
    let margin = per_cent_exec(width, 8);
    proof {
        lemma_margin_bounds(width as int);
        if height < 0 {
            lemma_band_empty_when_negative(height as int);
        } else {
            lemma_band_within_frame(height as int);
        }
    }
    let mut col_counts: Vec<i32> = vec![0i32; width as usize];
    let ghost f = frame@;
    let mut y: i32 = y0;
    while y < y1
        invariant
            f == frame@,
            y0 == cart_band_top(height as int),
            y1 == cart_band_bottom(height as int),
            margin == cart_margin(width as int),
            0 <= margin <= width,
            height >= 0 ==> 0 <= y0 && y1 <= height,
            height < 0 ==> y1 <= y0,
            y0 <= y,
            y0 < y1 ==> y <= y1,
            y0 >= y1 ==> y == y0,
            0 <= width,
            cart_band_readable(f.len() as int, width as int, height as int),
            col_counts@.len() == width,
            forall|i: int|
                0 <= i < width ==> #[trigger] col_counts@[i] == if margin <= i < width - margin {
                    red_rows(f, width as int, i, y0 as int, y as int)
                } else {
                    0
                },
            forall|i: int| 0 <= i < width ==> 0 <= #[trigger] col_counts@[i] <= y - y0,
        decreases y1 - y,
    {
        let mut x: i32 = margin;
        let ghost before = col_counts@;
        while x < width - margin
            invariant
                f == frame@,
                y0 <= y < y1,
                y0 == cart_band_top(height as int),
                y1 == cart_band_bottom(height as int),
                margin == cart_margin(width as int),
                0 <= margin <= width,
                margin <= x,
                margin <= width - margin ==> x <= width - margin,
                0 <= width,
                cart_band_readable(f.len() as int, width as int, height as int),
                col_counts@.len() == width,
                forall|i: int|
                    0 <= i < width ==> #[trigger] col_counts@[i] == if margin <= i < x {
                        before[i] + if red_pixel(f, pixel_offset(width as int, i, y as int)) {
                            1int
                        } else {
                            0int
                        }
                    } else {
                        before[i] as int
                    },
                forall|i: int| 0 <= i < width ==> 0 <= #[trigger] before[i] <= y - y0,
            decreases width - margin - x,
        {
            assert(pixel_in_frame(f.len() as int, width as int, x as int, y as int));
            if red_color(frame, width, x, y) {
                let c = col_counts[x as usize];
                col_counts.set(x as usize, c + 1);
            }
            x = x + 1;
        }
        proof {
            assert forall|i: int| 0 <= i < width implies #[trigger] col_counts@[i] == if margin <= i
                < width - margin {
                red_rows(f, width as int, i, y0 as int, y + 1)
            } else {
                0
            } by {
                if margin <= i < width - margin {
                    assert(red_rows(f, width as int, i, y0 as int, y + 1) == red_rows(
                        f,
                        width as int,
                        i,
                        y0 as int,
                        y as int,
                    ) + if red_pixel(f, pixel_offset(width as int, i, y as int)) {
                        1int
                    } else {
                        0int
                    });
                }
            }
        }
        y = y + 1;
    }
    proof {
        let cs = cart_columns(f, width as int, height as int);
        assert forall|i: int| 0 <= i < width implies #[trigger] col_counts@[i] == cs[i] by {
            if y0 >= y1 {
                if margin <= i < width - margin {
                    assert(red_rows(f, width as int, i, y0 as int, y1 as int) == 0);
                }
            }
        }
        assert(col_counts@ =~= cs);
        let bound = cart_count_bound(width as int, height as int);
        assert forall|i: int| 0 <= i < col_counts@.len() implies 0 <= #[trigger] col_counts@[i]
            <= bound by {
            if y0 >= y1 {
                assert(col_counts@[i] <= 0);
            } else if !(margin < width - margin) {
                assert(col_counts@[i] == 0);
            }
        }
    }
    col_counts
}

/// No pixel of the searched part of the cart band, columns
/// `margin..width - margin` and rows `top..bottom`, is saturated to 45 or more.
pub open spec fn band_unsaturated(frame: Seq<u8>, width: int, height: int) -> bool {
    forall|x: int, y: int|
        cart_margin(width) <= x < width - cart_margin(width) && cart_band_top(height) <= y < cart_band_bottom(
            height,
        ) ==> !#[trigger] spread_at_least(frame, pixel_offset(width, x, y), 45)
}

proof fn lemma_red_rows_zero(frame: Seq<u8>, width: int, x: int, ylo: int, yhi: int)
    requires
        forall|y: int| ylo <= y < yhi ==> !#[trigger] red_pixel(frame, pixel_offset(width, x, y)),
    ensures
        red_rows(frame, width, x, ylo, yhi) == 0,
    decreases yhi - ylo,
{
    if yhi > ylo {
        lemma_red_rows_zero(frame, width, x, ylo, yhi - 1);
    }
}

/// A frame whose searched band holds no pixel saturated to 45 or more (a
/// gray frame, for one) has no cart: no column counts a red pixel, so no run
/// of columns qualifies.
pub proof fn lemma_unsaturated_band_has_no_cart(frame: Seq<u8>, width: int, height: int)
    requires
        band_unsaturated(frame, width, height),
    ensures
        forall|s: int, e: int|
            !#[trigger] cart_run(cart_columns(frame, width, height), cart_margin(width), cart_max_len(width), s, e),
{
    let c = cart_columns(frame, width, height);
    let m = cart_margin(width);
    let top = cart_band_top(height);
    let bottom = cart_band_bottom(height);
    assert forall|x: int| 0 <= x < width implies #[trigger] column_count(frame, width, height, x) == 0 by {
        if m <= x < width - m {
            assert forall|y: int| top <= y < bottom implies !#[trigger] red_pixel(
                frame,
                pixel_offset(width, x, y),
            ) by {
                lemma_red_pixel_exact(frame, pixel_offset(width, x, y));
                assert(!spread_at_least(frame, pixel_offset(width, x, y), 45));
            }
            lemma_red_rows_zero(frame, width, x, top, bottom);
        }
    }
    assert forall|s: int, e: int| !#[trigger] cart_run(c, m, cart_max_len(width), s, e) by {
        if cart_run(c, m, cart_max_len(width), s, e) {
            assert(active(c, s));
            assert(column_count(frame, width, height, s) == 0);
        }
    }
}

/// Finds the cart in the lower band of a BGRA frame of `width` x `height`
/// pixels: the run of columns holding at least three red pixels each whose
/// length is between 8 % and 34 % of the width and whose red count is the
/// largest (the first such run on a tie). Returns the run's middle column
/// and the row at 88 % of the height, or `None` when there is no such run.
/// A run that reaches the last column of the frame is not counted.
pub fn find_cart_center(frame: &[u8], width: i32, height: i32) -> (r: Option<(i32, i32)>)
    requires
        0 <= width,
        cart_band_readable(frame@.len() as int, width as int, height as int),
    ensures
        ({
            let c = cart_columns(frame@, width as int, height as int);
            let lo = cart_margin(width as int);
            let hi = cart_max_len(width as int);
            match r {
                None => forall|s: int, e: int| !#[trigger] cart_run(c, lo, hi, s, e),
                Some((cx, cy)) => exists|s: int, e: int|
                    #[trigger] best_cart_run(c, lo, hi, s, e) && cx == (s + e) / 2 && cy == cart_row(
                        height as int,
                    ),
            }
        }),
        band_unsaturated(frame@, width as int, height as int) ==> r is None,
{
    proof {
        lemma_count_bound_fits(frame@.len() as int, width as int, height as int);
        if band_unsaturated(frame@, width as int, height as int) {
            lemma_unsaturated_band_has_no_cart(frame@, width as int, height as int);
        }
    }
    let counts = cart_column_counts(frame, width, height);
    let lo = per_cent_exec(width, 8);
    let hi = per_cent_exec(width, 34);
    let ghost gbound = cart_count_bound(width as int, height as int);
    let bound: i32 = if lo < width - lo && per_cent_exec(height, 79) < per_cent_exec(height, 91) {
        per_cent_exec(height, 91) - per_cent_exec(height, 79)
    } else {
        0
    };
    let best = best_active_run(&counts, lo, hi, bound);
    match best {
        None => None,
        Some((x0, x1)) => {
            assert(closed_run(counts@, x0 as int, x1 as int));
            assert(active(counts@, x0 as int));
            assert(gbound >= 3);
            let cy = per_cent_exec(height, 88);
            proof {
                let c = cart_columns(frame@, width as int, height as int);
                assert(best_cart_run(c, cart_margin(width as int), cart_max_len(width as int), x0 as int, x1 as int));
            }
            Some(((x0 + x1) / 2, cy))
        },
    }
}

/// The cart is found only inside the searched columns, away from the side
/// margins: every column of the best run has red pixels, so lies in
/// `margin..width - margin`, and so does the run's middle.
pub proof fn lemma_cart_within_margins(frame: Seq<u8>, width: int, height: int, s: int, e: int)
    requires
        0 <= width,
        best_cart_run(
            cart_columns(frame, width, height),
            cart_margin(width),
            cart_max_len(width),
            s,
            e,
        ),
    ensures
        cart_margin(width) <= (s + e) / 2 < width - cart_margin(width),
        cart_margin(width) <= s,
        e <= width - cart_margin(width),
{
    let c = cart_columns(frame, width, height);
    assert(active(c, s));
    assert(active(c, e - 1));
    assert(c[s] == column_count(frame, width, height, s) as i32);
    assert(c[e - 1] == column_count(frame, width, height, e - 1) as i32);
}

proof fn lemma_sum_split(c: Seq<i32>, s: int, m: int, e: int)
    requires
        s <= m <= e,
    ensures
        sum_range(c, s, e) == sum_range(c, s, m) + sum_range(c, m, e),
    decreases e - m,
{
    if e > m {
        lemma_sum_split(c, s, m, e - 1);
    }
}

} // verus!
