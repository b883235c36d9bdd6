use line_density::grid::{combine, reduce, zero_grid, Grid, SCALE};
use line_density::pipeline::{aggregate_series, render};
use line_density::raster::rasterize;
use line_density::shade::{colorize, max_cell, Shade};

const S: u64 = SCALE;

fn grid(width: usize, height: usize, cells: Vec<u64>) -> Grid {
    assert_eq!(cells.len(), width * height);
    Grid {
        width,
        height,
        cells,
    }
}

#[test]
fn raster_flat_series() {
    // A flat series draws a horizontal line at row 1 across all 4 columns;
    // each column has exactly one touched cell, so it normalizes to the
    // full unit weight exactly.
    let g = rasterize(&vec![1, 1, 1, 1], 4, 3);
    assert_eq!(g.width, 4);
    assert_eq!(g.height, 3);
    for x in 0..4 {
        for y in 0..3 {
            let expect = if y == 1 { S } else { 0 };
            assert_eq!(g.cells[x * 3 + y], expect);
        }
    }
    // Aggregating one such grid yields itself.
    let expected = g.cells.clone();
    let agg = reduce(&vec![g], 4, 3);
    assert_eq!(agg.cells, expected);
    // Every touched cell carries the full parameter 1 (num == den); all
    // other cells are white.
    let img = colorize(&agg);
    for x in 0..4 {
        for y in 0..3 {
            if y == 1 {
                assert_eq!(img[x * 3 + y], Shade::Blend { num: S, den: S });
            } else {
                assert_eq!(img[x * 3 + y], Shade::White);
            }
        }
    }
}

#[test]
fn raster_column_sums() {
    // Series [0, 2, 1] on a 3x3 grid: the first segment covers rows 0..=1
    // of column 0 and rows 1..=2 of column 1; the second covers rows 1..=2
    // of column 1 and row 1 of column 2. Every column sum is exactly SCALE
    // here because the touched counts (2, 2, 1) divide SCALE.
    let g = rasterize(&vec![0, 2, 1], 3, 3);
    assert_eq!(g.cells, vec![S / 2, S / 2, 0, 0, S / 2, S / 2, 0, S, 0]);
    for x in 0..3 {
        let sum: u64 = (0..3).map(|y| g.cells[x * 3 + y]).sum();
        assert_eq!(sum, S);
    }
}

#[test]
fn steep_segment_sums_within_count_of_unit() {
    // A single steep segment from (0, 0) to (1, 9) splits at its midpoint,
    // row 4: column 0 gets rows 0..=4 (5 cells), column 1 rows 4..=9
    // (6 cells). Neither count divides SCALE, so each column sums to SCALE
    // minus the division remainder: within its touched count of the unit.
    let g = rasterize(&vec![0, 9], 2, 10);
    for y in 0..10 {
        let expect0 = if y <= 4 { S / 5 } else { 0 };
        let expect1 = if y >= 4 { S / 6 } else { 0 };
        assert_eq!(g.cells[y], expect0);
        assert_eq!(g.cells[10 + y], expect1);
    }
    let sum0: u64 = (0..10).map(|y| g.cells[y]).sum();
    let sum1: u64 = (0..10).map(|y| g.cells[10 + y]).sum();
    assert!(S - 5 < sum0 && sum0 <= S);
    assert!(S - 6 < sum1 && sum1 <= S);
}

#[test]
fn untouched_columns_stay_zero() {
    // A one-column series has no segments: nothing is drawn and the only
    // column's sum stays exactly zero.
    let g = rasterize(&vec![2], 1, 5);
    assert_eq!(g.cells, vec![0, 0, 0, 0, 0]);
    let img = colorize(&g);
    assert!(img.iter().all(|s| *s == Shade::White));
}

#[test]
fn two_series_overlap() {
    // One flat series at row 1, one zig-zag series. They overlap at cell
    // (1, 1): its aggregated value is the sum of both normalized
    // contributions and is the global maximum; cells touched by only one
    // series carry a parameter strictly below 1.
    let s1: Vec<u32> = vec![1, 1, 1, 1];
    let s2: Vec<u32> = vec![3, 1, 3, 3];
    let agg = aggregate_series(&vec![s1, s2], 4, 5);
    let expected: Vec<u64> = vec![
        0,
        S,
        S / 2,
        S / 2,
        0, // column 0: flat at row 1; zig-zag at rows 2, 3
        0,
        S + S / 2,
        S / 2,
        0,
        0, // column 1: both series touch row 1
        0,
        S,
        S / 2,
        S / 2,
        0, // column 2
        0,
        S,
        0,
        S,
        0, // column 3: zig-zag at row 3 only
    ];
    assert_eq!(agg.cells, expected);
    let max = max_cell(&agg);
    assert_eq!(max, S + S / 2);
    let img = colorize(&agg);
    // The doubly-touched cell carries the full parameter.
    assert_eq!(
        img[1 * 5 + 1],
        Shade::Blend {
            num: S + S / 2,
            den: S + S / 2
        }
    );
    // Cells touched by a single series stay strictly below it.
    match img[0 * 5 + 1] {
        Shade::Blend { num, den } => assert!(num < den),
        Shade::White => panic!("touched cell rendered white"),
    }
    match img[0 * 5 + 2] {
        Shade::Blend { num, den } => assert!(num < den),
        Shade::White => panic!("touched cell rendered white"),
    }
}

#[test]
fn empty_batch_is_identity() {
    // No series at all: the aggregate is the all-zero identity and the
    // output is pure white everywhere.
    let agg = reduce(&vec![], 4, 3);
    assert_eq!(agg.cells, vec![0; 12]);
    let agg2 = aggregate_series(&vec![], 4, 3);
    assert_eq!(agg2.cells, vec![0; 12]);
    let img = render(&vec![], 4, 3);
    assert_eq!(img.len(), 12);
    assert!(img.iter().all(|s| *s == Shade::White));
}

#[test]
fn combine_commutes() {
    let a = grid(2, 2, vec![1, 2, 3, 4]);
    let b = grid(2, 2, vec![10, 0, 5, 7]);
    let ab = combine(&a, &b);
    let ba = combine(&b, &a);
    assert_eq!(ab.cells, vec![11, 2, 8, 11]);
    assert_eq!(ab.cells, ba.cells);
}

#[test]
fn reduce_splits_into_partitions() {
    // Reducing the whole list agrees with combining the reductions of any
    // partition into two sublists, exactly.
    let g1 = grid(2, 2, vec![1, 0, 2, 5]);
    let g2 = grid(2, 2, vec![0, 3, 1, 1]);
    let g3 = grid(2, 2, vec![4, 4, 0, 2]);
    let whole = reduce(
        &vec![
            grid(2, 2, vec![1, 0, 2, 5]),
            grid(2, 2, vec![0, 3, 1, 1]),
            grid(2, 2, vec![4, 4, 0, 2]),
        ],
        2,
        2,
    );
    let left = reduce(&vec![g1], 2, 2);
    let right = reduce(&vec![g2, g3], 2, 2);
    let joined = combine(&left, &right);
    assert_eq!(whole.cells, vec![5, 7, 3, 8]);
    assert_eq!(whole.cells, joined.cells);
}

#[test]
fn reduce_is_order_independent() {
    // Any permutation of the grids aggregates to the same result.
    let mk = || {
        vec![
            grid(3, 1, vec![1, 2, 3]),
            grid(3, 1, vec![9, 0, 1]),
            grid(3, 1, vec![5, 5, 5]),
        ]
    };
    let base = reduce(&mk(), 3, 1);
    let g = mk();
    let mut permuted: Vec<Grid> = Vec::new();
    let mut g = g;
    permuted.push(g.remove(2));
    permuted.push(g.remove(0));
    permuted.push(g.remove(0));
    let other = reduce(&permuted, 3, 1);
    assert_eq!(base.cells, vec![15, 7, 9]);
    assert_eq!(base.cells, other.cells);
}

#[test]
fn zero_grid_is_identity_for_combine() {
    let z = zero_grid(2, 3);
    let a = grid(2, 3, vec![1, 2, 3, 4, 5, 6]);
    let az = combine(&a, &z);
    assert_eq!(az.cells, vec![1, 2, 3, 4, 5, 6]);
}

#[test]
fn shade_parameters_are_monotone() {
    // Larger aggregated values get strictly larger gradient parameters;
    // the parameters sweep (0, 1] monotonically with the value.
    let g = grid(1, 4, vec![0, 2, 3, 5]);
    let img = colorize(&g);
    assert_eq!(img[0], Shade::White);
    assert_eq!(img[1], Shade::Blend { num: 2, den: 5 });
    assert_eq!(img[2], Shade::Blend { num: 3, den: 5 });
    assert_eq!(img[3], Shade::Blend { num: 5, den: 5 });
    // Cross-multiplied fractions are strictly increasing.
    assert!(2 * 5 < 3 * 5);
    assert!(3 * 5 < 5 * 5);
    assert_ne!(img[1], img[2]);
}

#[test]
fn zero_cells_are_white_whatever_the_maximum() {
    let g = grid(2, 1, vec![0, 7]);
    let img = colorize(&g);
    assert_eq!(img[0], Shade::White);
    assert_eq!(img[1], Shade::Blend { num: 7, den: 7 });
}

#[test]
fn max_cell_finds_the_global_maximum() {
    let g = grid(2, 2, vec![3, 9, 1, 9]);
    assert_eq!(max_cell(&g), 9);
    let z = zero_grid(2, 2);
    assert_eq!(max_cell(&z), 0);
}

#[test]
fn render_matches_colorized_aggregate() {
    let batch = vec![vec![1u32, 1, 1, 1], vec![3u32, 1, 3, 3]];
    let img = render(&batch, 4, 5);
    let agg = aggregate_series(&batch, 4, 5);
    let direct = colorize(&agg);
    assert_eq!(img, direct);
}
