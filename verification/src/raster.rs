//! Rasterizing one series as a connected polyline onto a density grid,
//! followed by column normalization.
//!
//! Segment `k` runs from `(k, series[k])` to `(k + 1, series[k + 1])`. The
//! rasterizer is deterministic and splits each segment's vertical extent at
//! its midpoint: column `k` receives the rows between `series[k]` and the
//! midpoint, column `k + 1` the rows between the midpoint and
//! `series[k + 1]`, so every column under the segment is touched. Drawing
//! sets a cell (it never accumulates), so overlapping segments do not
//! inflate the density. Normalization then shares the column's unit weight
//! `SCALE` equally among the touched cells of that column; a column the line
//! never touches stays all-zero.

use vstd::prelude::*;

use crate::grid::Grid;
use crate::grid::SCALE;

verus! {

/// The vertical midpoint of a segment joining rows `a` and `b`.
pub open spec fn seg_mid(a: u32, b: u32) -> int {
    (a as int + b as int) / 2
}

/// `y` lies between `a` and `b`, in either order, inclusive.
pub open spec fn row_between(y: int, a: int, b: int) -> bool {
    (a <= y && y <= b) || (b <= y && y <= a)
}

/// Segment `k` of the polyline passes through cell `(x, y)`.
pub open spec fn seg_covers(s: Seq<u32>, k: int, x: int, y: int) -> bool {
    &&& 0 <= k
    &&& k + 1 < s.len()
    &&& ((x == k && row_between(y, s[k] as int, seg_mid(s[k], s[k + 1]))) || (x == k + 1
        && row_between(y, seg_mid(s[k], s[k + 1]), s[k + 1] as int)))
}

/// One of the first `n` segments passes through cell `(x, y)`.
spec fn touched_upto(s: Seq<u32>, n: int, x: int, y: int) -> bool {
    exists|k: int| k < n && #[trigger] seg_covers(s, k, x, y)
}

/// The rasterized polyline passes through cell `(x, y)`.
pub open spec fn touched(s: Seq<u32>, x: int, y: int) -> bool {
    exists|k: int| seg_covers(s, k, x, y)
}

/// How many of the first `h` rows of column `x` the polyline touches.
pub open spec fn col_count(s: Seq<u32>, x: int, h: nat) -> nat
    decreases h,
{
    if h == 0 {
        0
    } else {
        col_count(s, x, (h - 1) as nat) + if touched(s, x, h - 1) {
            1nat
        } else {
            0nat
        }
    }
}

/// The value the rasterizer leaves at cell `(x, y)` of a `height`-row grid:
/// the touched cells of a column share the column's unit weight `SCALE`
/// equally; untouched cells hold 0.
pub open spec fn raster_value(s: Seq<u32>, height: nat, x: int, y: int) -> u64 {
    if touched(s, x, y) {
        (SCALE as nat / col_count(s, x, height)) as u64
    } else {
        0
    }
}

/// The entry for cell `(x, y)` of a column-major mask with `h` rows.
spec fn bit_at(m: Seq<bool>, h: int, x: int, y: int) -> bool {
    m[x * h + y]
}

/// The entry for cell `(x, y)` of column-major cell storage with `h` rows.
spec fn val_at(c: Seq<u64>, h: int, x: int, y: int) -> u64 {
    c[x * h + y]
}

/// A cell index `x * h + y` stays inside a `w * h` grid.
pub proof fn lemma_cell_index_bound(x: int, y: int, w: int, h: int)
    requires
        0 <= x < w,
        0 <= y < h,
    ensures
        0 <= x * h + y < w * h,
{
    assert(x * h + y < w * h) by (nonlinear_arith)
        requires
            0 <= x < w,
            0 <= y < h,
    ;
}

/// Cells of an earlier column index below every cell of a later column.
proof fn lemma_cell_index_mono(x1: int, y1: int, x2: int, h: int)
    requires
        0 <= x1 < x2,
        0 <= y1 < h,
    ensures
        x1 * h + y1 < x2 * h,
{
    assert(x1 * h + y1 < x2 * h) by (nonlinear_arith)
        requires
            0 <= x1 < x2,
            0 <= y1 < h,
    ;
}

/// Column-major cell indexing is injective.
proof fn lemma_cell_index_injective(x1: int, y1: int, x2: int, y2: int, h: int)
    requires
        0 <= y1 < h,
        0 <= y2 < h,
        x1 * h + y1 == x2 * h + y2,
    ensures
        x1 == x2 && y1 == y2,
{
    assert(x1 == x2 && y1 == y2) by (nonlinear_arith)
        requires
            0 <= y1 < h,
            0 <= y2 < h,
            x1 * h + y1 == x2 * h + y2,
    ;
}

/// Extending the segment range by one adds exactly that segment's cover.
proof fn lemma_touched_upto_step(s: Seq<u32>, n: int, x: int, y: int)
    ensures
        touched_upto(s, n + 1, x, y) == (touched_upto(s, n, x, y) || seg_covers(s, n, x, y)),
{
    if touched_upto(s, n + 1, x, y) {
        let k = choose|k: int| k < n + 1 && #[trigger] seg_covers(s, k, x, y);
        if k < n {
            assert(touched_upto(s, n, x, y));
        }
    }
    if touched_upto(s, n, x, y) {
        let k = choose|k: int| k < n && #[trigger] seg_covers(s, k, x, y);
        assert(k < n + 1 && seg_covers(s, k, x, y));
    }
    if seg_covers(s, n, x, y) {
        assert(n < n + 1 && seg_covers(s, n, x, y));
    }
}

/// A series of width `w` has segments `0 .. w - 1` and no others, so being
/// touched at all is being touched by one of them.
proof fn lemma_touched_upto_all(s: Seq<u32>, x: int, y: int)
    requires
        s.len() >= 1,
    ensures
        touched_upto(s, s.len() - 1, x, y) == touched(s, x, y),
{
    if touched_upto(s, s.len() - 1, x, y) {
        let k = choose|k: int| k < s.len() - 1 && #[trigger] seg_covers(s, k, x, y);
        assert(touched(s, x, y));
    }
    if touched(s, x, y) {
        let k = choose|k: int| #[trigger] seg_covers(s, k, x, y);
        assert(k < s.len() - 1 && seg_covers(s, k, x, y));
    }
}

/// A touched row below `h` makes the column's count positive.
proof fn lemma_touched_count_pos(s: Seq<u32>, x: int, y: int, h: nat)
    requires
        0 <= y < h,
        touched(s, x, y),
    ensures
        col_count(s, x, h) >= 1,
    decreases h,
{
    if y < h - 1 {
        lemma_touched_count_pos(s, x, y, (h - 1) as nat);
    }
}

/// The sum of the rasterizer's values over the first `h` rows of column `x`.
pub open spec fn col_sum(s: Seq<u32>, height: nat, x: int, h: nat) -> int
    decreases h,
{
    if h == 0 {
        0
    } else {
        col_sum(s, height, x, (h - 1) as nat) + raster_value(s, height, x, h - 1) as int
    }
}

/// A partial column sum is the partial touched count times the value the
/// column's touched cells share.
proof fn lemma_col_sum_counts(s: Seq<u32>, height: nat, x: int, h: nat)
    requires
        h <= height,
        col_count(s, x, height) >= 1,
    ensures
        col_sum(s, height, x, h) == col_count(s, x, h) * ((SCALE as nat / col_count(
            s,
            x,
            height,
        )) as int),
    decreases h,
{
    let q = (SCALE as nat / col_count(s, x, height)) as int;
    assert(SCALE as nat / col_count(s, x, height) <= SCALE) by (nonlinear_arith)
        requires
            col_count(s, x, height) >= 1,
    ;
    if h > 0 {
        let hp = (h - 1) as nat;
        lemma_col_sum_counts(s, height, x, hp);
        assert(col_sum(s, height, x, h) == col_sum(s, height, x, hp) + raster_value(
            s,
            height,
            x,
            h - 1,
        ) as int);
        if touched(s, x, h - 1) {
            assert(raster_value(s, height, x, h - 1) as int == q);
            assert(col_count(s, x, h) == col_count(s, x, hp) + 1);
            assert((col_count(s, x, hp) + 1) * q == col_count(s, x, hp) * q + q)
                by (nonlinear_arith);
        } else {
            assert(raster_value(s, height, x, h - 1) == 0);
            assert(col_count(s, x, h) == col_count(s, x, hp));
        }
    } else {
        assert(col_sum(s, height, x, h) == 0);
        assert(col_count(s, x, h) == 0);
    }
    assert(col_sum(s, height, x, h) == col_count(s, x, h) * q);
}

/// A column with no touched cell sums to zero.
proof fn lemma_col_sum_zero(s: Seq<u32>, height: nat, x: int, h: nat)
    requires
        h <= height,
        col_count(s, x, height) == 0,
    ensures
        col_sum(s, height, x, h) == 0,
    decreases h,
{
    if h > 0 {
        lemma_col_sum_zero(s, height, x, (h - 1) as nat);
        if touched(s, x, h - 1) {
            lemma_touched_count_pos(s, x, h - 1, height);
        }
    }
}

/// Column normalization: a column the polyline touches sums, over all its
/// rows, to within its touched-cell count of `SCALE` (the fixed-point
/// analogue of summing to 1.0 within floating-point epsilon; a column of
/// one touched cell sums to `SCALE` exactly); a column the polyline never
/// touches sums to exactly 0.
pub proof fn lemma_column_normalization(s: Seq<u32>, height: nat, x: int)
    ensures
        col_count(s, x, height) == 0 ==> col_sum(s, height, x, height) == 0,
        col_count(s, x, height) >= 1 ==> SCALE - col_count(s, x, height) < col_sum(
            s,
            height,
            x,
            height,
        ) <= SCALE,
{
    let k = col_count(s, x, height) as int;
    if k == 0 {
        lemma_col_sum_zero(s, height, x, height);
    } else {
        lemma_col_sum_counts(s, height, x, height);
        vstd::arithmetic::div_mod::lemma_fundamental_div_mod(SCALE as int, k);
        vstd::arithmetic::div_mod::lemma_mod_bound(SCALE as int, k);
    }
}

/// The sum of a grid's values over the first `h` rows of column `x`.
pub open spec fn grid_col_sum(g: Grid, x: int, h: nat) -> int
    decreases h,
{
    if h == 0 {
        0
    } else {
        grid_col_sum(g, x, (h - 1) as nat) + g.cell(x, h - 1)
    }
}

/// A column whose cells all match the raster values sums as they do.
proof fn lemma_grid_col_sum_matches(g: Grid, s: Seq<u32>, x: int, h: nat)
    requires
        h <= g.height,
        forall|y: int|
            0 <= y < g.height ==> #[trigger] g.cell(x, y) == raster_value(
                s,
                g.height as nat,
                x,
                y,
            ),
    ensures
        grid_col_sum(g, x, h) == col_sum(s, g.height as nat, x, h),
    decreases h,
{
    if h > 0 {
        lemma_grid_col_sum_matches(g, s, x, (h - 1) as nat);
    }
}

/// Column normalization, stated of the grid the rasterizer returns (its
/// cells match `raster_value`, as `rasterize` ensures): every column the
/// polyline touches sums, over its rows, to within its touched-cell count
/// of `SCALE`; every column it never touches sums to exactly 0.
pub proof fn lemma_rasterize_normalizes(g: Grid, s: Seq<u32>, x: int)
    requires
        0 <= x < g.width,
        forall|xx: int, yy: int|
            0 <= xx < g.width && 0 <= yy < g.height ==> #[trigger] g.cell(xx, yy) == raster_value(
                s,
                g.height as nat,
                xx,
                yy,
            ),
    ensures
        col_count(s, x, g.height as nat) == 0 ==> grid_col_sum(g, x, g.height as nat) == 0,
        col_count(s, x, g.height as nat) >= 1 ==> SCALE - col_count(s, x, g.height as nat)
            < grid_col_sum(g, x, g.height as nat) <= SCALE,
{
    assert forall|y: int| 0 <= y < g.height implies #[trigger] g.cell(x, y) == raster_value(
        s,
        g.height as nat,
        x,
        y,
    ) by {}
    lemma_grid_col_sum_matches(g, s, x, g.height as nat);
    lemma_column_normalization(s, g.height as nat, x);
}

/// Sets, in column `x`, every row between `a` and `b` (inclusive, either
/// order) of the mask; all other entries keep their value.
fn fill_span(mask: &mut Vec<bool>, width: usize, height: usize, x: usize, a: u32, b: u32)
    requires
        old(mask)@.len() == width * height,
        width * height <= usize::MAX,
        x < width,
        (a as int) < height,
        (b as int) < height,
    ensures
        final(mask)@.len() == old(mask)@.len(),
        forall|xx: int, yy: int|
            0 <= xx < width && 0 <= yy < height ==> #[trigger] bit_at(
                final(mask)@,
                height as int,
                xx,
                yy,
            ) == (bit_at(old(mask)@, height as int, xx, yy) || (xx == x && row_between(
                yy,
                a as int,
                b as int,
            ))),
{
    let lo: usize = if a <= b {
        a as usize
    } else {
        b as usize
    };
    let hi: usize = if a <= b {
        b as usize
    } else {
        a as usize
    };
    let mut y: usize = lo;
    while y <= hi
        invariant
            lo <= y,
            y <= hi + 1,
            hi < height,
            x < width,
            width * height <= usize::MAX,
            mask@.len() == width * height,
            mask@.len() == old(mask)@.len(),
            forall|xx: int, yy: int|
                0 <= xx < width && 0 <= yy < height ==> #[trigger] bit_at(
                    mask@,
                    height as int,
                    xx,
                    yy,
                ) == (bit_at(old(mask)@, height as int, xx, yy) || (xx == x && lo <= yy < y)),
        decreases hi + 1 - y,
    {
        proof {
            lemma_cell_index_bound(x as int, y as int, width as int, height as int);
        }
        let ghost before = mask@;
        let idx: usize = x * height + y;
        mask[idx] = true;
        proof {
            assert forall|xx: int, yy: int| 0 <= xx < width && 0 <= yy < height implies #[trigger]
            bit_at(mask@, height as int, xx, yy) == (bit_at(before, height as int, xx, yy) || (xx
                == x && yy == y)) by {
                lemma_cell_index_bound(xx, yy, width as int, height as int);
                if xx * height + yy == x * height + y {
                    lemma_cell_index_injective(xx, yy, x as int, y as int, height as int);
                }
            }
        }
        y = y + 1;
    }
    proof {
        assert forall|xx: int, yy: int| 0 <= xx < width && 0 <= yy < height implies #[trigger]
        bit_at(mask@, height as int, xx, yy) == (bit_at(old(mask)@, height as int, xx, yy) || (xx
            == x && row_between(yy, a as int, b as int))) by {
            assert((lo <= yy < y) == row_between(yy, a as int, b as int));
        }
    }
}

/// Rasterizes one series onto a fresh `width x height` grid and normalizes
/// each column: the result holds exactly `raster_value` at every cell, and
/// every cell is at most `SCALE`.
pub fn rasterize(series: &Vec<u32>, width: usize, height: usize) -> (g: Grid)
    requires
        series@.len() == width,
        1 <= width,
        1 <= height,
        width * height <= usize::MAX,
        forall|j: int| 0 <= j < width ==> (series@[j] as int) < height,
    ensures
        g.wf(),
        g.width == width,
        g.height == height,
        forall|x: int, y: int|
            0 <= x < width && 0 <= y < height ==> #[trigger] g.cell(x, y) == raster_value(
                series@,
                height as nat,
                x,
                y,
            ),
        forall|i: int| 0 <= i < g.cells@.len() ==> g.cells@[i] <= SCALE,
{
    let s = Ghost(series@);

    // Phase 1: draw the polyline onto a boolean mask.
    let n: usize = width * height;
    let mut mask: Vec<bool> = Vec::new();
    let mut i: usize = 0;
    while i < n
        invariant
            i <= n,
            mask@.len() == i,
            forall|j: int| 0 <= j < i ==> mask@[j] == false,
        decreases n - i,
    {
        mask.push(false);
        i = i + 1;
    }
    proof {
        assert forall|xx: int, yy: int| 0 <= xx < width && 0 <= yy < height implies #[trigger]
        bit_at(mask@, height as int, xx, yy) == touched_upto(s@, 0, xx, yy) by {
            lemma_cell_index_bound(xx, yy, width as int, height as int);
            if touched_upto(s@, 0, xx, yy) {
                let k = choose|k: int| k < 0 && #[trigger] seg_covers(s@, k, xx, yy);
            }
        }
    }

    let mut k: usize = 0;
    while k + 1 < width
        invariant
            k < width,
            width >= 1,
            height >= 1,
            s@ == series@,
            s@.len() == width,
            width * height <= usize::MAX,
            forall|j: int| 0 <= j < width ==> (s@[j] as int) < height,
            mask@.len() == width * height,
            forall|xx: int, yy: int|
                0 <= xx < width && 0 <= yy < height ==> #[trigger] bit_at(
                    mask@,
                    height as int,
                    xx,
                    yy,
                ) == touched_upto(s@, k as int, xx, yy),
        decreases width - k,
    {
        let y0: u32 = series[k];
        let y1: u32 = series[k + 1];
        let m: u32 = ((y0 as u64 + y1 as u64) / 2) as u32;
        proof {
            assert(m as int == seg_mid(s@[k as int], s@[k as int + 1]));
            assert((m as int) < height);
        }
        let ghost before = mask@;
        fill_span(&mut mask, width, height, k, y0, m);
        fill_span(&mut mask, width, height, k + 1, m, y1);
        proof {
            assert forall|xx: int, yy: int| 0 <= xx < width && 0 <= yy < height implies #[trigger]
            bit_at(mask@, height as int, xx, yy) == touched_upto(s@, k as int + 1, xx, yy) by {
                lemma_touched_upto_step(s@, k as int, xx, yy);
                assert(bit_at(before, height as int, xx, yy) == touched_upto(s@, k as int, xx, yy));
            }
        }
        k = k + 1;
    }
    proof {
        assert(k as int == width - 1);
        assert forall|xx: int, yy: int| 0 <= xx < width && 0 <= yy < height implies #[trigger]
        bit_at(mask@, height as int, xx, yy) == touched(s@, xx, yy) by {
            lemma_touched_upto_all(s@, xx, yy);
        }
    }

    // Phase 2: count each column's touched cells and share SCALE among them.
    let mut cells: Vec<u64> = Vec::new();
    let mut x: usize = 0;
    while x < width
        invariant
            x <= width,
            height >= 1,
            s@ == series@,
            s@.len() == width,
            width * height <= usize::MAX,
            mask@.len() == width * height,
            forall|xx: int, yy: int|
                0 <= xx < width && 0 <= yy < height ==> #[trigger] bit_at(
                    mask@,
                    height as int,
                    xx,
                    yy,
                ) == touched(s@, xx, yy),
            cells@.len() == x * height,
            forall|i: int| 0 <= i < cells@.len() ==> cells@[i] <= SCALE,
            forall|xx: int, yy: int|
                0 <= xx < x && 0 <= yy < height ==> #[trigger] val_at(
                    cells@,
                    height as int,
                    xx,
                    yy,
                ) == raster_value(s@, height as nat, xx, yy),
        decreases width - x,
    {
        proof {
            lemma_cell_index_bound(x as int, height - 1, width as int, height as int);
        }
        // Count the touched cells of column x.
        let mut cnt: u64 = 0;
        let mut y: usize = 0;
        while y < height
            invariant
                y <= height,
                x < width,
                width * height <= usize::MAX,
                mask@.len() == width * height,
                x * height + height <= width * height,
                forall|xx: int, yy: int|
                    0 <= xx < width && 0 <= yy < height ==> #[trigger] bit_at(
                        mask@,
                        height as int,
                        xx,
                        yy,
                    ) == touched(s@, xx, yy),
                cnt == col_count(s@, x as int, y as nat),
                cnt <= y,
            decreases height - y,
        {
            proof {
                assert(bit_at(mask@, height as int, x as int, y as int) == touched(
                    s@,
                    x as int,
                    y as int,
                ));
            }
            if mask[x * height + y] {
                cnt = cnt + 1;
            }
            y = y + 1;
        }
        let q: u64 = if cnt > 0 {
            SCALE / cnt
        } else {
            0
        };
        proof {
            assert(q <= SCALE) by (nonlinear_arith)
                requires
                    q == if cnt > 0 {
                        SCALE / cnt
                    } else {
                        0u64
                    },
            ;
        }
        // Fill column x of the grid.
        let mut y2: usize = 0;
        while y2 < height
            invariant
                y2 <= height,
                x < width,
                height >= 1,
                s@.len() == width,
                width * height <= usize::MAX,
                mask@.len() == width * height,
                x * height + height <= width * height,
                forall|xx: int, yy: int|
                    0 <= xx < width && 0 <= yy < height ==> #[trigger] bit_at(
                        mask@,
                        height as int,
                        xx,
                        yy,
                    ) == touched(s@, xx, yy),
                cnt == col_count(s@, x as int, height as nat),
                q == if cnt > 0 {
                    SCALE / cnt
                } else {
                    0u64
                },
                q <= SCALE,
                cells@.len() == x * height + y2,
                forall|i: int| 0 <= i < cells@.len() ==> cells@[i] <= SCALE,
                forall|xx: int, yy: int|
                    0 <= xx < x && 0 <= yy < height ==> #[trigger] val_at(
                        cells@,
                        height as int,
                        xx,
                        yy,
                    ) == raster_value(s@, height as nat, xx, yy),
                forall|yy: int|
                    0 <= yy < y2 ==> #[trigger] val_at(cells@, height as int, x as int, yy)
                        == raster_value(s@, height as nat, x as int, yy),
            decreases height - y2,
        {
            proof {
                assert(bit_at(mask@, height as int, x as int, y2 as int) == touched(
                    s@,
                    x as int,
                    y2 as int,
                ));
            }
            let v: u64 = if mask[x * height + y2] {
                proof {
                    lemma_touched_count_pos(s@, x as int, y2 as int, height as nat);
                }
                q
            } else {
                0
            };
            proof {
                assert(v == raster_value(s@, height as nat, x as int, y2 as int));
            }
            let ghost before_cells = cells@;
            cells.push(v);
            proof {
                assert forall|xx: int, yy: int|
                    0 <= yy < height && (0 <= xx < x || (xx == x && 0 <= yy < y2)) implies
                #[trigger] val_at(cells@, height as int, xx, yy) == val_at(
                    before_cells,
                    height as int,
                    xx,
                    yy,
                ) by {
                    lemma_cell_index_bound(xx, yy, width as int, height as int);
                    if xx < x {
                        lemma_cell_index_mono(xx, yy, x as int, height as int);
                    }
                    assert(0 <= xx * height + yy < before_cells.len());
                }
                assert(val_at(cells@, height as int, x as int, y2 as int) == v);
            }
            y2 = y2 + 1;
        }
        proof {
            assert((x as int + 1) * height == x as int * height + height) by (nonlinear_arith);
        }
        proof {
            assert forall|xx: int, yy: int| 0 <= xx <= x && 0 <= yy < height implies #[trigger]
            val_at(cells@, height as int, xx, yy) == raster_value(s@, height as nat, xx, yy) by {
                if xx < x {
                } else {
                }
            }
        }
        x = x + 1;
    }
    let g = Grid { width, height, cells };
    proof {
        assert forall|xx: int, yy: int| 0 <= xx < width && 0 <= yy < height implies #[trigger] g.cell(
            xx,
            yy,
        ) == raster_value(s@, height as nat, xx, yy) by {
            lemma_cell_index_bound(xx, yy, width as int, height as int);
            assert(g.cell(xx, yy) == val_at(cells@, height as int, xx, yy));
        }
    }
    g
}

} // verus!
