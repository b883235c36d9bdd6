//! Mapping the aggregated grid to output shades.
//!
//! A cell whose aggregated density is exactly zero is rendered pure white,
//! whatever the global maximum. Every other cell carries the gradient
//! parameter `value / max` as an exact fraction in `(0, 1]`; turning that
//! parameter into an RGB color (interpolating between the two gradient
//! anchors in a perceptually uniform color space) is the caller's side of
//! the interface, since it is floating-point work.

use vstd::prelude::*;

use crate::grid::Grid;

verus! {

/// The largest value among a sequence of cells; 0 for the empty sequence.
pub open spec fn cells_max(s: Seq<u64>) -> u64
    decreases s.len(),
{
    if s.len() == 0 {
        0
    } else {
        let rest = cells_max(s.drop_last());
        if s.last() > rest {
            s.last()
        } else {
            rest
        }
    }
}

/// No cell exceeds the maximum.
pub proof fn lemma_cells_max_ge(s: Seq<u64>, i: int)
    requires
        0 <= i < s.len(),
    ensures
        s[i] <= cells_max(s),
    decreases s.len(),
{
    if i < s.len() - 1 {
        assert(s.drop_last()[i] == s[i]);
        lemma_cells_max_ge(s.drop_last(), i);
    }
}

/// The shade of one output cell: pure white, or the gradient parameter
/// `num / den` as an exact fraction.
#[derive(PartialEq, Eq, Structural, Clone, Copy, Debug)]
pub enum Shade {
    White,
    Blend { num: u64, den: u64 },
}

/// The shade a cell of aggregated value `value` receives when the grid's
/// global maximum is `max`: white exactly when the value is zero.
pub open spec fn shade_of(value: u64, max: u64) -> Shade {
    if value == 0 {
        Shade::White
    } else {
        Shade::Blend { num: value, den: max }
    }
}

/// Finds the grid's largest cell value (0 if the grid has no cells).
pub fn max_cell(g: &Grid) -> (m: u64)
    requires
        g.wf(),
    ensures
        m == cells_max(g.cells@),
{
    let n: usize = g.cells.len();
    let mut m: u64 = 0;
    let mut i: usize = 0;
    proof {
        assert(g.cells@.take(0) =~= Seq::<u64>::empty());
    }
    while i < n
        invariant
            i <= n,
            n == g.cells@.len(),
            m == cells_max(g.cells@.take(i as int)),
        decreases n - i,
    {
        proof {
            assert(g.cells@.take(i as int + 1).drop_last() =~= g.cells@.take(i as int));
            assert(g.cells@.take(i as int + 1).last() == g.cells@[i as int]);
        }
        let c: u64 = g.cells[i];
        if c > m {
            m = c;
        }
        i = i + 1;
    }
    proof {
        assert(g.cells@.take(n as int) =~= g.cells@);
    }
    m
}

/// Maps every cell of the aggregate to its shade under the grid's global
/// maximum: a cell is white exactly when its aggregated value is zero,
/// whatever the maximum; every other cell carries the exact parameter
/// `value / max`, a fraction in `(0, 1]`.
pub fn colorize(g: &Grid) -> (img: Vec<Shade>)
    requires
        g.wf(),
    ensures
        img@.len() == g.cells@.len(),
        forall|i: int|
            0 <= i < img@.len() ==> #[trigger] img@[i] == shade_of(
                g.cells@[i],
                cells_max(g.cells@),
            ),
        forall|i: int| 0 <= i < img@.len() ==> (g.cells@[i] == 0 <==> img@[i] == Shade::White),
        forall|i: int|
            0 <= i < img@.len() ==> ((#[trigger] img@[i]) matches Shade::Blend { num, den } ==> 1
                <= num <= den),
{
    let max: u64 = max_cell(g);
    let n: usize = g.cells.len();
    let mut img: Vec<Shade> = Vec::new();
    let mut i: usize = 0;
    while i < n
        invariant
            i <= n,
            n == g.cells@.len(),
            g.wf(),
            max == cells_max(g.cells@),
            img@.len() == i,
            forall|j: int|
                0 <= j < i ==> #[trigger] img@[j] == shade_of(g.cells@[j], cells_max(g.cells@)),
        decreases n - i,
    {
        let c: u64 = g.cells[i];
        if c == 0 {
            img.push(Shade::White);
        } else {
            proof {
                lemma_cells_max_ge(g.cells@, i as int);
            }
            img.push(Shade::Blend { num: c, den: max });
        }
        i = i + 1;
    }
    proof {
        assert forall|i2: int| 0 <= i2 < img@.len() implies (g.cells@[i2] == 0 <==> img@[i2]
            == Shade::White) by {}
        assert forall|i2: int|
            0 <= i2 < img@.len() implies ((#[trigger] img@[i2]) matches Shade::Blend { num, den }
            ==> 1 <= num <= den) by {
            lemma_cells_max_ge(g.cells@, i2);
        }
    }
    img
}

/// Gradient-parameter monotonicity: of two cells with positive aggregated
/// values under one maximum, the larger value receives the strictly larger
/// blend parameter over the common denominator, so their shades differ.
pub proof fn lemma_shade_monotone(v1: u64, v2: u64, max: u64)
    requires
        0 < v1 < v2 <= max,
    ensures
        shade_of(v1, max) == (Shade::Blend { num: v1, den: max }),
        shade_of(v2, max) == (Shade::Blend { num: v2, den: max }),
        shade_of(v1, max) != shade_of(v2, max),
{
}

} // verus!
