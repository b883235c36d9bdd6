//! The density grid: a `width x height` field of fixed-point scalars,
//! column-major, together with the elementwise-sum reducer.

use vstd::prelude::*;
use vstd::seq_lib::commutative_foldr;
use vstd::seq_lib::lemma_fold_right_permutation;

verus! {

/// Fixed-point unit: a density of 1.0 is stored as `SCALE`.
pub const SCALE: u64 = 1048576;

/// A `width x height` grid of fixed-point density values, stored
/// column-major: cell `(x, y)` lives at index `x * height + y`.
pub struct Grid {
    pub width: usize,
    pub height: usize,
    pub cells: Vec<u64>,
}

impl Grid {
    /// The storage holds exactly one value per cell.
    pub open spec fn wf(self) -> bool {
        self.cells@.len() == self.width * self.height
    }

    /// The value at column `x`, row `y`.
    pub open spec fn cell(self, x: int, y: int) -> u64 {
        self.cells@[x * self.height + y]
    }
}

/// The all-zero grid: the identity of `combine`.
pub fn zero_grid(width: usize, height: usize) -> (g: Grid)
    requires
        width * height <= usize::MAX,
    ensures
        g.wf(),
        g.width == width,
        g.height == height,
        forall|i: int| 0 <= i < g.cells@.len() ==> g.cells@[i] == 0,
{
    let n: usize = width * height;
    let mut cells: Vec<u64> = Vec::new();
    let mut i: usize = 0;
    while i < n
        invariant
            i <= n,
            cells@.len() == i,
            forall|j: int| 0 <= j < i ==> cells@[j] == 0,
        decreases n - i,
    {
        cells.push(0);
        i = i + 1;
    }
    Grid { width, height, cells }
}

/// The elementwise sum of two same-shaped grids, as a sequence of
/// mathematical integers. `combine` computes exactly this.
pub open spec fn combined_cells(a: Grid, b: Grid) -> Seq<int> {
    Seq::new(a.cells@.len(), |i: int| a.cells@[i] + b.cells@[i])
}

/// The reduction's binary merge: elementwise sum.
pub fn combine(a: &Grid, b: &Grid) -> (c: Grid)
    requires
        a.wf(),
        b.wf(),
        a.width == b.width,
        a.height == b.height,
        forall|i: int| 0 <= i < a.cells@.len() ==> a.cells@[i] + b.cells@[i] <= u64::MAX,
    ensures
        c.wf(),
        c.width == a.width,
        c.height == a.height,
        forall|i: int| 0 <= i < c.cells@.len() ==> c.cells@[i] == combined_cells(*a, *b)[i],
{
    let n: usize = a.cells.len();
    let mut cells: Vec<u64> = Vec::new();
    let mut i: usize = 0;
    while i < n
        invariant
            i <= n,
            n == a.cells@.len(),
            b.cells@.len() == n,
            cells@.len() == i,
            forall|j: int| 0 <= j < n ==> a.cells@[j] + b.cells@[j] <= u64::MAX,
            forall|j: int| 0 <= j < i ==> cells@[j] == a.cells@[j] + b.cells@[j],
        decreases n - i,
    {
        cells.push(a.cells[i] + b.cells[i]);
        i = i + 1;
    }
    Grid { width: a.width, height: a.height, cells }
}

/// Combining two grids is commutative, elementwise and exactly.
pub proof fn lemma_combine_commutative(a: Grid, b: Grid)
    requires
        a.cells@.len() == b.cells@.len(),
    ensures
        combined_cells(a, b) == combined_cells(b, a),
{
    assert(combined_cells(a, b) =~= combined_cells(b, a));
}

/// Adds a grid's cell at flat index `i` onto a running total.
pub open spec fn cell_add(i: int) -> spec_fn(Grid, int) -> int {
    |g: Grid, acc: int| acc + g.cells@[i]
}

/// The total, over a sequence of grids, of the cell at flat index `i`.
/// This is what reducing the sequence leaves at that cell.
pub open spec fn cell_total(gs: Seq<Grid>, i: int) -> int {
    gs.fold_right(cell_add(i), 0)
}

/// Folding cell `i` onto a base adds the sequence's total to the base.
proof fn lemma_cell_total_base(gs: Seq<Grid>, i: int, b: int)
    ensures
        gs.fold_right(cell_add(i), b) == cell_total(gs, i) + b,
    decreases gs.len(),
{
    if gs.len() > 0 {
        lemma_cell_total_base(gs.drop_last(), i, cell_add(i)(gs.last(), b));
        lemma_cell_total_base(gs.drop_last(), i, cell_add(i)(gs.last(), 0));
    }
}

/// Appending one grid adds that grid's cell to the total.
pub proof fn lemma_cell_total_push(gs: Seq<Grid>, g: Grid, i: int)
    ensures
        cell_total(gs.push(g), i) == cell_total(gs, i) + g.cells@[i],
{
    assert(gs.push(g).drop_last() =~= gs);
    assert(gs.push(g).last() == g);
    lemma_cell_total_base(gs, i, cell_add(i)(g, 0));
}

/// Reducing a single grid yields that grid's cells unchanged.
pub proof fn lemma_cell_total_singleton(g: Grid, i: int)
    ensures
        cell_total(seq![g], i) == g.cells@[i],
{
    assert(seq![g].drop_last() =~= Seq::<Grid>::empty());
    assert(seq![g].last() == g);
    assert(Seq::<Grid>::empty().fold_right(cell_add(i), cell_add(i)(g, 0)) == cell_add(i)(g, 0));
    assert(cell_add(i)(g, 0) == g.cells@[i]);
}

/// Splitting the grids into two batches splits the total: reducing the whole
/// sequence agrees, cell by cell, with combining the two partial reductions.
pub proof fn lemma_cell_total_concat(l1: Seq<Grid>, l2: Seq<Grid>, i: int)
    ensures
        cell_total(l1 + l2, i) == cell_total(l1, i) + cell_total(l2, i),
    decreases l2.len(),
{
    if l2.len() == 0 {
        assert(l1 + l2 =~= l1);
    } else {
        assert((l1 + l2).drop_last() =~= l1 + l2.drop_last());
        assert((l1 + l2).last() == l2.last());
        lemma_cell_total_base(l1 + l2.drop_last(), i, cell_add(i)(l2.last(), 0));
        lemma_cell_total_concat(l1, l2.drop_last(), i);
        lemma_cell_total_base(l2.drop_last(), i, cell_add(i)(l2.last(), 0));
    }
}

/// Order independence: two sequences holding the same grids (as a multiset)
/// have the same total at every cell, so aggregating in any permutation
/// order yields the same aggregate.
pub proof fn lemma_cell_total_permutation(l1: Seq<Grid>, l2: Seq<Grid>, i: int)
    requires
        l1.to_multiset() == l2.to_multiset(),
    ensures
        cell_total(l1, i) == cell_total(l2, i),
{
    assert(commutative_foldr(cell_add(i))) by {
        assert forall|x: Grid, y: Grid, v: int| #[trigger]
        cell_add(i)(x, cell_add(i)(y, v)) == cell_add(i)(y, cell_add(i)(x, v)) by {}
    }
    lemma_fold_right_permutation(l1, l2, cell_add(i), 0);
}

/// Reduces a batch of grids to their aggregate: starting from the all-zero
/// identity, every cell of the result is the exact elementwise sum of the
/// batch. The grids must share the given shape and hold normalized cells
/// (at most `SCALE`), and the batch must be small enough for the sums to
/// fit in a cell.
pub fn reduce(grids: &Vec<Grid>, width: usize, height: usize) -> (acc: Grid)
    requires
        width * height <= usize::MAX,
        forall|j: int| 0 <= j < grids@.len() ==> (#[trigger] grids@[j]).wf(),
        forall|j: int|
            0 <= j < grids@.len() ==> (#[trigger] grids@[j]).width == width && grids@[j].height
                == height,
        forall|j: int, i: int|
            0 <= j < grids@.len() && 0 <= i < width * height ==> #[trigger] grids@[j].cells@[i]
                <= SCALE,
        grids@.len() * SCALE <= u64::MAX,
    ensures
        acc.wf(),
        acc.width == width,
        acc.height == height,
        forall|i: int|
            0 <= i < acc.cells@.len() ==> #[trigger] acc.cells@[i] as int == cell_total(grids@, i),
{
    let mut acc = zero_grid(width, height);
    proof {
        assert(grids@.take(0) =~= Seq::<Grid>::empty());
    }
    let mut j: usize = 0;
    while j < grids.len()
        invariant
            j <= grids@.len(),
            acc.wf(),
            acc.width == width,
            acc.height == height,
            width * height <= usize::MAX,
            forall|jj: int| 0 <= jj < grids@.len() ==> (#[trigger] grids@[jj]).wf(),
            forall|jj: int|
                0 <= jj < grids@.len() ==> (#[trigger] grids@[jj]).width == width
                    && grids@[jj].height == height,
            forall|jj: int, i: int|
                0 <= jj < grids@.len() && 0 <= i < width * height ==> #[trigger]
                grids@[jj].cells@[i] <= SCALE,
            grids@.len() * SCALE <= u64::MAX,
            forall|i: int|
                0 <= i < acc.cells@.len() ==> #[trigger] acc.cells@[i] as int == cell_total(
                    grids@.take(j as int),
                    i,
                ),
            forall|i: int| 0 <= i < acc.cells@.len() ==> acc.cells@[i] <= j * SCALE,
        decreases grids@.len() - j,
    {
        proof {
            assert(j as int * SCALE + SCALE <= grids@.len() * SCALE) by (nonlinear_arith)
                requires
                    0 <= (j as int) < grids@.len(),
            ;
            assert forall|i: int| 0 <= i < acc.cells@.len() implies acc.cells@[i]
                + grids@[j as int].cells@[i] <= u64::MAX by {}
        }
        let ghost prefix = grids@.take(j as int);
        let next = combine(&acc, &grids[j]);
        acc = next;
        proof {
            assert(grids@.take(j as int + 1) =~= prefix.push(grids@[j as int]));
            assert forall|i: int| 0 <= i < acc.cells@.len() implies #[trigger] acc.cells@[i] as int
                == cell_total(grids@.take(j as int + 1), i) by {
                lemma_cell_total_push(prefix, grids@[j as int], i);
            }
            assert((j as int + 1) * SCALE == j as int * SCALE + SCALE) by (nonlinear_arith);
        }
        j = j + 1;
    }
    proof {
        assert(grids@.take(grids@.len() as int) =~= grids@);
    }
    acc
}

} // verus!
