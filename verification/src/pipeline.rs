//! The pipeline's computing core: rasterize every series of a batch, fold
//! the per-series grids into one aggregate, and map the aggregate to
//! shades. Obtaining the series, scheduling the per-series work and turning
//! shades into encoded image bytes are the caller's side of the interface.

use vstd::prelude::*;

use crate::grid::Grid;
use crate::grid::SCALE;
use crate::grid::combine;
use crate::grid::zero_grid;
use crate::raster::lemma_cell_index_bound;
use crate::raster::raster_value;
use crate::raster::rasterize;
use crate::shade::Shade;
use crate::shade::cells_max;
use crate::shade::colorize;
use crate::shade::shade_of;

verus! {

/// One series fit for a `width x height` grid: one sample per column, each
/// below the grid's height.
pub open spec fn series_ok(s: Seq<u32>, width: nat, height: nat) -> bool {
    s.len() == width && forall|p: int| 0 <= p < s.len() ==> (s[p] as int) < height
}

/// The mathematical views of a batch of series.
pub open spec fn series_views(batch: Seq<Vec<u32>>) -> Seq<Seq<u32>> {
    batch.map_values(|v: Vec<u32>| v@)
}

/// The aggregated density of a batch of series at cell `(x, y)`: the sum of
/// every series' normalized raster value there.
pub open spec fn density_total(ss: Seq<Seq<u32>>, height: nat, x: int, y: int) -> int
    decreases ss.len(),
{
    if ss.len() == 0 {
        0
    } else {
        density_total(ss.drop_last(), height, x, y) + raster_value(ss.last(), height, x, y) as int
    }
}

/// The aggregated grid of a batch, cell by cell, laid out column-major.
pub open spec fn density_cells(ss: Seq<Seq<u32>>, width: nat, height: nat) -> Seq<u64> {
    Seq::new(
        width * height,
        |i: int| density_total(ss, height, i / (height as int), i % (height as int)) as u64,
    )
}

/// A flat column-major index splits into its column and row.
proof fn lemma_flat_split(i: int, w: int, h: int)
    requires
        0 < h,
        0 <= i < w * h,
    ensures
        0 <= i / h < w,
        0 <= i % h < h,
        i == (i / h) * h + (i % h),
{
    vstd::arithmetic::div_mod::lemma_fundamental_div_mod(i, h);
    vstd::arithmetic::div_mod::lemma_mod_bound(i, h);
    assert(i == (i / h) * h + (i % h)) by (nonlinear_arith)
        requires
            i == h * (i / h) + (i % h),
    ;
    assert(0 <= i / h < w) by (nonlinear_arith)
        requires
            0 < h,
            0 <= i < w * h,
            i == h * (i / h) + (i % h),
            0 <= i % h < h,
    ;
}

/// Rasterizes every series of the batch and folds the results into one
/// aggregate, starting from the all-zero identity: every cell of the
/// result is the exact sum of the series' normalized contributions there.
pub fn aggregate_series(batch: &Vec<Vec<u32>>, width: usize, height: usize) -> (acc: Grid)
    requires
        1 <= width,
        1 <= height,
        width * height <= usize::MAX,
        forall|j: int|
            0 <= j < batch@.len() ==> series_ok(#[trigger] batch@[j]@, width as nat, height as nat),
        batch@.len() * SCALE <= u64::MAX,
    ensures
        acc.wf(),
        acc.width == width,
        acc.height == height,
        forall|x: int, y: int|
            0 <= x < width && 0 <= y < height ==> (#[trigger] acc.cell(x, y)) as int
                == density_total(series_views(batch@), height as nat, x, y),
{
    let ghost vs = series_views(batch@);
    let mut acc = zero_grid(width, height);
    proof {
        assert(vs.take(0) =~= Seq::<Seq<u32>>::empty());
        assert forall|x: int, y: int| 0 <= x < width && 0 <= y < height implies (#[trigger] acc.cell(
            x,
            y,
        )) as int == density_total(vs.take(0), height as nat, x, y) by {
            lemma_cell_index_bound(x, y, width as int, height as int);
        }
    }
    let mut j: usize = 0;
    while j < batch.len()
        invariant
            j <= batch@.len(),
            vs == series_views(batch@),
            acc.wf(),
            acc.width == width,
            acc.height == height,
            1 <= width,
            1 <= height,
            width * height <= usize::MAX,
            forall|jj: int|
                0 <= jj < batch@.len() ==> series_ok(
                    #[trigger] batch@[jj]@,
                    width as nat,
                    height as nat,
                ),
            batch@.len() * SCALE <= u64::MAX,
            forall|i: int| 0 <= i < acc.cells@.len() ==> acc.cells@[i] <= j * SCALE,
            forall|x: int, y: int|
                0 <= x < width && 0 <= y < height ==> (#[trigger] acc.cell(x, y)) as int
                    == density_total(vs.take(j as int), height as nat, x, y),
        decreases batch@.len() - j,
    {
        let r = rasterize(&batch[j], width, height);
        proof {
            assert(j as int * SCALE + SCALE <= batch@.len() * SCALE) by (nonlinear_arith)
                requires
                    0 <= (j as int) < batch@.len(),
            ;
            assert forall|i: int| 0 <= i < acc.cells@.len() implies acc.cells@[i] + r.cells@[i]
                <= u64::MAX by {}
        }
        let ghost prev = acc;
        let next = combine(&acc, &r);
        acc = next;
        proof {
            assert(vs.take(j as int + 1).drop_last() =~= vs.take(j as int));
            assert(vs.take(j as int + 1).last() == batch@[j as int]@);
            assert forall|x: int, y: int|
                0 <= x < width && 0 <= y < height implies (#[trigger] acc.cell(x, y)) as int
                == density_total(vs.take(j as int + 1), height as nat, x, y) by {
                lemma_cell_index_bound(x, y, width as int, height as int);
                assert(prev.cell(x, y) as int == density_total(vs.take(j as int), height as nat, x, y));
                assert(acc.cells@[x * height + y] == prev.cells@[x * height + y] + r.cells@[x
                    * height + y]);
                assert(r.cell(x, y) == raster_value(batch@[j as int]@, height as nat, x, y));
                assert(vs[j as int] == batch@[j as int]@);
            }
            assert((j as int + 1) * SCALE == j as int * SCALE + SCALE) by (nonlinear_arith);
        }
        j = j + 1;
    }
    proof {
        assert(vs.take(batch@.len() as int) =~= vs);
    }
    acc
}

/// Runs the whole pipeline on a batch of series: rasterize each, reduce to
/// the aggregate, and shade every cell against the aggregate's global
/// maximum.
pub fn render(batch: &Vec<Vec<u32>>, width: usize, height: usize) -> (img: Vec<Shade>)
    requires
        1 <= width,
        1 <= height,
        width * height <= usize::MAX,
        forall|j: int|
            0 <= j < batch@.len() ==> series_ok(#[trigger] batch@[j]@, width as nat, height as nat),
        batch@.len() * SCALE <= u64::MAX,
    ensures
        img@.len() == width * height,
        forall|i: int|
            0 <= i < img@.len() ==> #[trigger] img@[i] == shade_of(
                density_cells(series_views(batch@), width as nat, height as nat)[i],
                cells_max(density_cells(series_views(batch@), width as nat, height as nat)),
            ),
{
    let ghost vs = series_views(batch@);
    let ghost dc = density_cells(vs, width as nat, height as nat);
    let acc = aggregate_series(batch, width, height);
    proof {
        assert forall|i: int| 0 <= i < acc.cells@.len() implies acc.cells@[i] == dc[i] by {
            lemma_flat_split(i, width as int, height as int);
            let x = i / (height as int);
            let y = i % (height as int);
            assert(acc.cell(x, y) as int == density_total(vs, height as nat, x, y));
            assert(acc.cell(x, y) == acc.cells@[x * height + y]);
        }
        assert(acc.cells@ =~= dc);
    }
    colorize(&acc)
}

} // verus!
