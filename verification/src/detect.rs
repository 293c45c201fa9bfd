//! Block-size detection: the greatest integer that divides the length of
//! every run of equal colours in every row and every column of an image.

use crate::gcd::{
    divides, gcd, gcd_of, lemma_divides_self, lemma_divides_zero, lemma_divisor_at_most,
    lemma_gcd_divisors, lemma_gcd_positive,
};
use crate::grid::{Color, Grid};
use crate::raster::{color_at, dimensions, image_grid, image_height, image_width};
use crate::runs::{
    breaks_aligned, divides_runs, is_break, lemma_run_length, lemma_run_start,
    lemma_runs_and_breaks, run_start,
};
use image::DynamicImage;
use vstd::prelude::*;

verus! {

/// `d` is positive and divides the length of every run in every row and in
/// every column of `grid`.
pub open spec fn divides_all_runs(d: int, grid: Grid) -> bool {
    &&& d > 0
    &&& forall|y: int| 0 <= y < grid.height ==> divides_runs(d, #[trigger] grid.row(y))
    &&& forall|x: int| 0 <= x < grid.width ==> divides_runs(d, #[trigger] grid.column(x))
}

/// `k` is the block size of `grid`: the greatest integer that divides the
/// length of every run in every row and in every column.
///
/// A grid without pixels has no runs, so every positive integer qualifies as
/// a divisor and none is the greatest: such a grid has no block size.
pub open spec fn is_block_size(grid: Grid, k: int) -> bool {
    &&& divides_all_runs(k, grid)
    &&& forall|d: int| #[trigger] divides_all_runs(d, grid) ==> d <= k
}

/// A grid has at most one block size.
pub proof fn lemma_block_size_unique(grid: Grid, k1: int, k2: int)
    requires
        is_block_size(grid, k1),
        is_block_size(grid, k2),
    ensures
        k1 == k2,
{
}

/// The direction of a scanline.
#[derive(Clone, Copy)]
enum Axis {
    Row,
    Column,
}

/// The scanline of `grid` with the given index along `axis`.
spec fn line_of(grid: Grid, axis: Axis, index: int) -> Seq<Color> {
    match axis {
        Axis::Row => grid.row(index),
        Axis::Column => grid.column(index),
    }
}

/// How many pixels each scanline along `axis` holds.
spec fn line_length(grid: Grid, axis: Axis) -> nat {
    match axis {
        Axis::Row => grid.width,
        Axis::Column => grid.height,
    }
}

/// How many scanlines `grid` has along `axis`.
spec fn line_count(grid: Grid, axis: Axis) -> nat {
    match axis {
        Axis::Row => grid.height,
        Axis::Column => grid.width,
    }
}

/// `d` is positive and divides every run length of the first `count`
/// scanlines along `axis`.
spec fn divides_lines(d: int, grid: Grid, axis: Axis, count: int) -> bool {
    &&& d > 0
    &&& forall|index: int|
        0 <= index < count ==> divides_runs(d, #[trigger] line_of(grid, axis, index))
}

/// What an accumulator stands for: nothing gathered yet counts as 0, which
/// every positive integer divides.
spec fn gathered(acc: Option<u32>) -> nat {
    match acc {
        None => 0,
        Some(g) => g as nat,
    }
}

/// While a line is scanned: the divisors of `acc` are the divisors of
/// `before` that divide every position below `limit` at which the colour
/// changes.
spec fn scanned(before: nat, line: Seq<Color>, limit: int, acc: nat) -> bool {
    forall|d: int| #[trigger]
        divides(d, acc as int) <==> divides(d, before as int) && breaks_aligned(d, line, limit)
}

/// Once a line is scanned: `after` is positive, and its divisors are the
/// divisors of `before` that divide every run length of `line`.
spec fn folded_line(before: nat, line: Seq<Color>, after: nat) -> bool {
    &&& after > 0
    &&& forall|d: int| #[trigger]
        divides(d, after as int) <==> divides(d, before as int) && divides_runs(d, line)
}

/// Once the first `count` lines along `axis` are scanned: the divisors of
/// `acc` are the integers that divide every run length in these lines.
spec fn folded_lines(grid: Grid, axis: Axis, count: int, acc: nat) -> bool {
    forall|d: int| #[trigger] divides(d, acc as int) <==> divides_lines(d, grid, axis, count)
}

/// A colour change at `at` closes the run that began at
/// `run_start(line, at - 1)`; folding its length in accounts for the change.
proof fn lemma_scan_break(before: nat, line: Seq<Color>, at: int, acc: nat)
    requires
        scanned(before, line, at, acc),
        is_break(line, at),
    ensures
        at - run_start(line, at - 1) > 0,
        scanned(before, line, at + 1, gcd_of(acc, (at - run_start(line, at - 1)) as nat)),
{
    lemma_run_start(line, at - 1);
    let run: nat = (at - run_start(line, at - 1)) as nat;
    assert forall|d: int| #[trigger]
        divides(d, gcd_of(acc, run) as int)
            <==> divides(d, before as int) && breaks_aligned(d, line, at + 1) by {
        lemma_gcd_divisors(acc, run, d);
        assert(divides(d, acc as int)
            <==> divides(d, before as int) && breaks_aligned(d, line, at));
        if divides(d, before as int) && breaks_aligned(d, line, at) {
            lemma_run_length(d, line, at);
        }
    }
}

/// Where the colour stays the same at `at`, nothing new has to be divided.
proof fn lemma_scan_same(before: nat, line: Seq<Color>, at: int, acc: nat)
    requires
        scanned(before, line, at, acc),
        !is_break(line, at),
    ensures
        scanned(before, line, at + 1, acc),
{
    assert forall|d: int| #[trigger]
        divides(d, acc as int)
            <==> divides(d, before as int) && breaks_aligned(d, line, at + 1) by {
        assert(divides(d, acc as int)
            <==> divides(d, before as int) && breaks_aligned(d, line, at));
    }
}

/// At the end of the line the last run is closed; folding its length in
/// completes the line.
proof fn lemma_scan_end(before: nat, line: Seq<Color>, acc: nat)
    requires
        line.len() > 0,
        scanned(before, line, line.len() as int, acc),
    ensures
        line.len() - run_start(line, line.len() - 1) > 0,
        folded_line(
            before,
            line,
            gcd_of(acc, (line.len() - run_start(line, line.len() - 1)) as nat),
        ),
{
    let len: int = line.len() as int;
    lemma_run_start(line, len - 1);
    let run: nat = (len - run_start(line, len - 1)) as nat;
    lemma_gcd_positive(acc, run);
    assert forall|d: int| #[trigger]
        divides(d, gcd_of(acc, run) as int)
            <==> divides(d, before as int) && divides_runs(d, line) by {
        lemma_gcd_divisors(acc, run, d);
        lemma_runs_and_breaks(d, line);
        assert(divides(d, acc as int)
            <==> divides(d, before as int) && breaks_aligned(d, line, len));
        if divides(d, before as int) && breaks_aligned(d, line, len) {
            lemma_run_length(d, line, len);
        }
    }
}

/// Before any line is scanned the accumulator accounts for no run at all.
proof fn lemma_no_line(grid: Grid, axis: Axis)
    ensures
        folded_lines(grid, axis, 0, 0),
{
    assert forall|d: int| #[trigger] divides(d, 0) <==> divides_lines(d, grid, axis, 0) by {
        if d > 0 {
            lemma_divides_zero(d);
        }
    }
}

/// Folding one more line in extends what the accumulator accounts for by
/// that line.
proof fn lemma_next_line(grid: Grid, axis: Axis, count: int, before: nat, after: nat)
    requires
        count >= 0,
        folded_lines(grid, axis, count, before),
        folded_line(before, line_of(grid, axis, count), after),
    ensures
        folded_lines(grid, axis, count + 1, after),
{
    assert forall|d: int| #[trigger]
        divides(d, after as int) <==> divides_lines(d, grid, axis, count + 1) by {
        assert(divides(d, before as int) <==> divides_lines(d, grid, axis, count));
        assert(divides(d, after as int)
            <==> divides(d, before as int) && divides_runs(d, line_of(grid, axis, count)));
    }
}

/// To divide all runs of a grid is to divide those of all its rows and those
/// of all its columns.
proof fn lemma_all_lines(d: int, grid: Grid)
    ensures
        divides_all_runs(d, grid)
            <==> divides_lines(d, grid, Axis::Row, grid.height as int)
                && divides_lines(d, grid, Axis::Column, grid.width as int),
{
    assert forall|y: int| 0 <= y < grid.height
    implies grid.row(y) == line_of(grid, Axis::Row, y) by {}
    assert forall|x: int| 0 <= x < grid.width
    implies grid.column(x) == line_of(grid, Axis::Column, x) by {}
}

/// The greatest common divisor of what the rows gave and what the columns
/// gave is the block size.
proof fn lemma_rows_and_columns(grid: Grid, rows: nat, columns: nat)
    requires
        rows > 0,
        folded_lines(grid, Axis::Row, grid.height as int, rows),
        folded_lines(grid, Axis::Column, grid.width as int, columns),
    ensures
        gcd_of(rows, columns) > 0,
        is_block_size(grid, gcd_of(rows, columns) as int),
{
    let k: int = gcd_of(rows, columns) as int;
    lemma_gcd_positive(rows, columns);
    assert forall|d: int| divides(d, k) <==> #[trigger] divides_all_runs(d, grid) by {
        lemma_gcd_divisors(rows, columns, d);
        lemma_all_lines(d, grid);
        assert(divides(d, rows as int)
            <==> divides_lines(d, grid, Axis::Row, grid.height as int));
        assert(divides(d, columns as int)
            <==> divides_lines(d, grid, Axis::Column, grid.width as int));
    }
    lemma_divides_self(k);
    assert forall|d: int| #[trigger] divides_all_runs(d, grid) implies d <= k by {
        lemma_divisor_at_most(d, k);
    }
}

/// Reads the colour at position `at` of the scanline `index` along `axis`.
fn color_along(img: &DynamicImage, axis: Axis, index: u32, at: u32) -> (color: Color)
    requires
        index < line_count(image_grid(*img), axis),
        at < line_length(image_grid(*img), axis),
    ensures
        color == line_of(image_grid(*img), axis, index as int)[at as int],
{
    match axis {
        Axis::Row => color_at(img, at, index),
        Axis::Column => color_at(img, index, at),
    }
}

/// Folds the length of one run into the accumulator: the first run starts
/// it, every further one is combined by `gcd`.
fn fold_run(acc: Option<u32>, run_length: u32) -> (folded: u32)
    ensures
        folded == gcd_of(gathered(acc), run_length as nat),
{
    match acc {
        None => {
            assert(gcd_of(0, run_length as nat) == run_length) by {
                reveal_with_fuel(gcd_of, 2);
                if run_length > 0 {
                    lemma_divides_zero(run_length as int);
                }
            }
            run_length
        },
        Some(g) => gcd(g, run_length),
    }
}

/// Walks one scanline and folds the length of each of its runs into `acc`.
#[verifier::loop_isolation(false)]
fn fold_line(
    img: &DynamicImage,
    axis: Axis,
    index: u32,
    length: u32,
    acc: Option<u32>,
) -> (folded: u32)
    requires
        index < line_count(image_grid(*img), axis),
        length == line_length(image_grid(*img), axis),
        length > 0,
    ensures
        folded_line(gathered(acc), line_of(image_grid(*img), axis, index as int), folded as nat),
{
    let ghost before = gathered(acc);
    let ghost line = line_of(image_grid(*img), axis, index as int);
    let mut acc = acc;
    let mut last_color = color_along(img, axis, index, 0);
    let mut last_change: u32 = 0;
    for at in 1..length
        invariant
            last_change == run_start(line, at - 1),
            last_color == line[at - 1],
            scanned(before, line, at as int, gathered(acc)),
    {
        let color = color_along(img, axis, index, at);
        if color != last_color {
            proof {
                lemma_scan_break(before, line, at as int, gathered(acc));
            }
            let run_length: u32 = at - last_change;
            acc = Some(fold_run(acc, run_length));
            last_change = at;
            last_color = color;
        } else {
            proof {
                lemma_scan_same(before, line, at as int, gathered(acc));
            }
        }
    }
    proof {
        lemma_scan_end(before, line, gathered(acc));
    }
    fold_run(acc, length - last_change)
}

/// Folds the runs of every scanline along `axis` into one accumulator.
#[verifier::loop_isolation(false)]
fn fold_lines(img: &DynamicImage, axis: Axis, count: u32, length: u32) -> (folded: Option<u32>)
    requires
        count == line_count(image_grid(*img), axis),
        length == line_length(image_grid(*img), axis),
        length > 0,
    ensures
        count > 0 ==> folded is Some && gathered(folded) > 0,
        folded_lines(image_grid(*img), axis, count as int, gathered(folded)),
{
    let mut acc: Option<u32> = None;
    proof {
        lemma_no_line(image_grid(*img), axis);
    }
    for index in 0..count
        invariant
            index > 0 ==> acc is Some && gathered(acc) > 0,
            folded_lines(image_grid(*img), axis, index as int, gathered(acc)),
    {
        let folded: u32 = fold_line(img, axis, index, length, acc);
        proof {
            lemma_next_line(image_grid(*img), axis, index as int, gathered(acc), folded as nat);
        }
        acc = Some(folded);
    }
    acc
}

/// Estimates the factor by which a piece of pixel art was scaled up.
///
/// An image without pixels gives `None`. Any other image gives its block
/// size, which is at least 1.
pub fn detect_block_size(img: &DynamicImage) -> (found: Option<u32>)
    ensures
        found is None <==> image_width(*img) == 0 || image_height(*img) == 0,
        found matches Some(k) ==> k >= 1 && is_block_size(image_grid(*img), k as int),
{
    let (width, height): (u32, u32) = dimensions(img);
    if width == 0 || height == 0 {
        return None;
    }
    let gcd_row = fold_lines(img, Axis::Row, height, width);
    let gcd_col = fold_lines(img, Axis::Column, width, height);
    match (gcd_row, gcd_col) {
        (Some(gr), Some(gc)) => {
            proof {
                lemma_rows_and_columns(image_grid(*img), gr as nat, gc as nat);
            }
            Some(gcd(gr, gc))
        },
        _ => None,
    }
}

} // verus!
