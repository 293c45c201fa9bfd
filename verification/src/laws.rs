//! What detection and downsampling do to solid images and to pixel art that
//! was scaled up by an integer factor.

use crate::detect::{divides_all_runs, is_block_size};
use crate::downsample::{is_downsampled, lemma_downsample_inverts_upscale};
use crate::gcd::{
    divides, gcd_of, lemma_divides_self, lemma_divisor_at_most, lemma_gcd_divisors,
    lemma_gcd_positive,
};
use crate::grid::{is_upscaled, same_picture, Color, Grid};
use crate::runs::{divides_runs, is_break, is_run, lemma_runs_and_breaks};
use vstd::arithmetic::div_mod::{
    lemma_basic_div, lemma_div_by_self, lemma_div_pos_is_pos, lemma_fundamental_div_mod,
    lemma_fundamental_div_mod_converse, lemma_mod_multiples_basic, lemma_multiply_divide_lt,
};
use vstd::arithmetic::mul::lemma_mul_inequality;
use vstd::prelude::*;

verus! {

/// Every pixel of `grid` has the same colour.
pub open spec fn is_solid(grid: Grid) -> bool {
    forall|x: int, y: int| grid.contains(x, y) ==> #[trigger] grid.at(x, y) == grid.at(0, 0)
}

/// No pixel of `grid` has the colour of its neighbour to the left or of its
/// neighbour above.
pub open spec fn neighbours_differ(grid: Grid) -> bool {
    &&& forall|x: int, y: int|
        0 < x < grid.width && 0 <= y < grid.height
            ==> grid.at(x - 1, y) != #[trigger] grid.at(x, y)
    &&& forall|x: int, y: int|
        0 <= x < grid.width && 0 < y < grid.height
            ==> grid.at(x, y - 1) != #[trigger] grid.at(x, y)
}

/// `line` is `cells` with every cell repeated `k` times.
spec fn is_stretched(line: Seq<Color>, cells: Seq<Color>, k: int) -> bool {
    &&& k > 0
    &&& line.len() == cells.len() * k
    &&& forall|i: int| 0 <= i < line.len() ==> #[trigger] line[i] == cells[i / k]
}

/// Position `i` of a line stretched by `k` falls into one of its cells.
proof fn lemma_cell_index(i: int, count: int, k: int)
    requires
        k > 0,
        0 <= i < count * k,
    ensures
        0 <= i / k < count,
{
    assert(count * k == k * count) by (nonlinear_arith);
    lemma_multiply_divide_lt(i, k, count);
    lemma_div_pos_is_pos(i, k);
}

/// Two neighbouring positions fall into the same cell unless the second is
/// a multiple of `k`.
proof fn lemma_same_cell(at: int, k: int)
    requires
        k > 0,
        at > 0,
        at % k != 0,
    ensures
        (at - 1) / k == at / k,
{
    let q: int = at / k;
    let r: int = at % k;
    lemma_fundamental_div_mod(at, k);
    assert(k * q == q * k) by (nonlinear_arith);
    lemma_fundamental_div_mod_converse(at - 1, k, q, r - 1);
}

/// On a line of one colour, `d` divides every run length exactly when it
/// divides the length of the line.
proof fn lemma_plain_line(d: int, line: Seq<Color>)
    requires
        line.len() > 0,
        forall|i: int| 0 <= i < line.len() ==> #[trigger] line[i] == line[0],
    ensures
        divides_runs(d, line) <==> divides(d, line.len() as int),
{
    lemma_runs_and_breaks(d, line);
}

/// `k` divides every run length of a line stretched by `k`.
proof fn lemma_stretched_runs(line: Seq<Color>, cells: Seq<Color>, k: int)
    requires
        is_stretched(line, cells, k),
        cells.len() > 0,
    ensures
        divides_runs(k, line),
{
    let len: int = line.len() as int;
    lemma_mod_multiples_basic(cells.len() as int, k);
    lemma_mul_inequality(1, cells.len() as int, k);
    assert forall|at: int| 0 < at < len && #[trigger] is_break(line, at) implies divides(k, at) by {
        if at % k != 0 {
            lemma_same_cell(at, k);
            assert(line[at - 1] == cells[(at - 1) / k]);
            assert(line[at] == cells[at / k]);
        }
    }
    lemma_runs_and_breaks(k, line);
}

/// A line stretched by `k` whose first two cells differ starts with a run of
/// length `k`.
proof fn lemma_stretched_first_run(line: Seq<Color>, cells: Seq<Color>, k: int)
    requires
        is_stretched(line, cells, k),
        cells.len() > 0,
        cells.len() > 1 ==> cells[0] != cells[1],
    ensures
        is_run(line, 0, k),
{
    assert(k <= line.len()) by {
        lemma_mul_inequality(1, cells.len() as int, k);
        assert(1 * k == k);
    }
    lemma_basic_div(0, k);
    assert(line[0] == cells[0int / k]);
    assert forall|i: int| 0 <= i < k implies #[trigger] line[i] == line[0] by {
        lemma_basic_div(i, k);
    }
    if k < line.len() {
        lemma_div_by_self(k);
        assert(line[k] == cells[k / k]);
    }
}

/// Row `y` of an upscaled grid is the row of the small grid that it came
/// from, stretched.
proof fn lemma_upscaled_row(big: Grid, small: Grid, k: int, y: int)
    requires
        is_upscaled(big, small, k),
        0 <= y < big.height,
    ensures
        0 <= y / k < small.height,
        is_stretched(big.row(y), small.row(y / k), k),
{
    lemma_cell_index(y, small.height as int, k);
    let line: Seq<Color> = big.row(y);
    let cells: Seq<Color> = small.row(y / k);
    assert forall|i: int| 0 <= i < line.len() implies #[trigger] line[i] == cells[i / k] by {
        lemma_cell_index(i, small.width as int, k);
        assert(big.contains(i, y));
        assert(big.at(i, y) == small.at(i / k, y / k));
    }
}

/// Column `x` of an upscaled grid is the column of the small grid that it
/// came from, stretched.
proof fn lemma_upscaled_column(big: Grid, small: Grid, k: int, x: int)
    requires
        is_upscaled(big, small, k),
        0 <= x < big.width,
    ensures
        0 <= x / k < small.width,
        is_stretched(big.column(x), small.column(x / k), k),
{
    lemma_cell_index(x, small.width as int, k);
    let line: Seq<Color> = big.column(x);
    let cells: Seq<Color> = small.column(x / k);
    assert forall|i: int| 0 <= i < line.len() implies #[trigger] line[i] == cells[i / k] by {
        lemma_cell_index(i, small.height as int, k);
        assert(big.contains(x, i));
        assert(big.at(x, i) == small.at(x / k, i / k));
    }
}

/// In a solid grid that has pixels, to divide all runs is to divide the
/// width and the height.
proof fn lemma_solid_divisors(d: int, grid: Grid)
    requires
        is_solid(grid),
        grid.width > 0,
        grid.height > 0,
    ensures
        divides_all_runs(d, grid)
            <==> divides(d, grid.width as int) && divides(d, grid.height as int),
{
    assert forall|y: int| 0 <= y < grid.height
    implies (divides_runs(d, #[trigger] grid.row(y)) <==> divides(d, grid.width as int)) by {
        let line: Seq<Color> = grid.row(y);
        assert forall|i: int| 0 <= i < line.len() implies #[trigger] line[i] == line[0] by {
            assert(grid.at(i, y) == grid.at(0, 0));
            assert(grid.at(0, y) == grid.at(0, 0));
        }
        lemma_plain_line(d, line);
    }
    assert forall|x: int| 0 <= x < grid.width
    implies (divides_runs(d, #[trigger] grid.column(x)) <==> divides(d, grid.height as int)) by {
        let line: Seq<Color> = grid.column(x);
        assert forall|i: int| 0 <= i < line.len() implies #[trigger] line[i] == line[0] by {
            assert(grid.at(x, i) == grid.at(0, 0));
            assert(grid.at(x, 0) == grid.at(0, 0));
        }
        lemma_plain_line(d, line);
    }
    if divides_all_runs(d, grid) {
        assert(divides_runs(d, grid.row(0)));
        assert(divides_runs(d, grid.column(0)));
    }
}

/// The block size of a solid image that has pixels is the greatest common
/// divisor of its width and its height, and nothing else.
pub proof fn lemma_solid_block_size(grid: Grid)
    requires
        is_solid(grid),
        grid.width > 0,
        grid.height > 0,
    ensures
        is_block_size(grid, gcd_of(grid.width, grid.height) as int),
        forall|found: int| #[trigger]
            is_block_size(grid, found) ==> found == gcd_of(grid.width, grid.height),
{
    let k: int = gcd_of(grid.width, grid.height) as int;
    lemma_gcd_positive(grid.width, grid.height);
    lemma_divides_self(k);
    lemma_gcd_divisors(grid.width, grid.height, k);
    lemma_solid_divisors(k, grid);
    assert forall|d: int| #[trigger] divides_all_runs(d, grid) implies d <= k by {
        lemma_solid_divisors(d, grid);
        lemma_gcd_divisors(grid.width, grid.height, d);
        lemma_divisor_at_most(d, k);
    }
}

/// Scaling pixel art up by `k` gives an image of block size `k` and no other,
/// provided that the art has pixels and that no two of them that touch share
/// a colour.
pub proof fn lemma_upscaled_block_size(big: Grid, small: Grid, k: int)
    requires
        is_upscaled(big, small, k),
        small.width > 0,
        small.height > 0,
        neighbours_differ(small),
    ensures
        is_block_size(big, k),
        forall|found: int| #[trigger] is_block_size(big, found) ==> found == k,
{
    lemma_mul_inequality(1, small.width as int, k);
    lemma_mul_inequality(1, small.height as int, k);
    assert forall|y: int| 0 <= y < big.height implies divides_runs(k, #[trigger] big.row(y)) by {
        lemma_upscaled_row(big, small, k, y);
        lemma_stretched_runs(big.row(y), small.row(y / k), k);
    }
    assert forall|x: int| 0 <= x < big.width implies divides_runs(k, #[trigger] big.column(x)) by {
        lemma_upscaled_column(big, small, k, x);
        lemma_stretched_runs(big.column(x), small.column(x / k), k);
    }
    assert forall|d: int| #[trigger] divides_all_runs(d, big) implies d <= k by {
        lemma_upscaled_row(big, small, k, 0);
        let cells: Seq<Color> = small.row(0int / k);
        if cells.len() > 1 {
            assert(small.at(0, 0int / k) != small.at(1, 0int / k));
        }
        lemma_stretched_first_run(big.row(0), cells, k);
        assert(divides_runs(d, big.row(0)));
        lemma_divisor_at_most(d, k);
    }
}

/// Detection followed by downsampling restores pixel art that was scaled up
/// by `k`: the block size found is `k`, and the downsampled image shows the
/// art as it was before.
pub proof fn lemma_detect_then_downsample(out: Grid, big: Grid, small: Grid, k: int, found: int)
    requires
        is_upscaled(big, small, k),
        small.width > 0,
        small.height > 0,
        neighbours_differ(small),
        is_block_size(big, found),
        is_downsampled(out, big, found),
    ensures
        found == k,
        same_picture(out, small),
{
    lemma_upscaled_block_size(big, small, k);
    lemma_downsample_inverts_upscale(out, big, small, k);
}

} // verus!
