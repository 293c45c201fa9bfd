//! Runs of equal colours along one scanline, and which integers divide all
//! of their lengths.

use crate::gcd::{divides, lemma_divides_zero, lemma_multiple_vanishes};
use crate::grid::Color;
use vstd::prelude::*;

verus! {

/// `[start, end)` is a run of `line`: a stretch of one colour that cannot be
/// extended on either side.
pub open spec fn is_run(line: Seq<Color>, start: int, end: int) -> bool {
    &&& 0 <= start < end <= line.len()
    &&& forall|i: int| start <= i < end ==> line[i] == line[start]
    &&& (start == 0 || line[start - 1] != line[start])
    &&& (end == line.len() || line[end] != line[start])
}

/// `d` divides the length of every run of `line`.
pub open spec fn divides_runs(d: int, line: Seq<Color>) -> bool {
    forall|start: int, end: int| #[trigger] is_run(line, start, end) ==> divides(d, end - start)
}

/// The colour changes between positions `at - 1` and `at` of `line`.
pub open spec fn is_break(line: Seq<Color>, at: int) -> bool {
    0 < at < line.len() && line[at - 1] != line[at]
}

/// `d` divides every position below `limit` at which the colour of `line`
/// changes.
pub open spec fn breaks_aligned(d: int, line: Seq<Color>, limit: int) -> bool {
    forall|at: int| 0 < at < limit && #[trigger] is_break(line, at) ==> divides(d, at)
}

/// The first position of the run that covers position `at`.
pub open spec fn run_start(line: Seq<Color>, at: int) -> int
    decreases at,
{
    if at <= 0 {
        0
    } else if line[at - 1] != line[at] {
        at
    } else {
        run_start(line, at - 1)
    }
}

/// `run_start` finds a position at or before `at` where a run begins, and the
/// colour does not change from there up to `at`.
pub proof fn lemma_run_start(line: Seq<Color>, at: int)
    requires
        0 <= at < line.len(),
    ensures
        0 <= run_start(line, at) <= at,
        run_start(line, at) == 0 || is_break(line, run_start(line, at)),
        forall|i: int| run_start(line, at) <= i <= at ==> line[i] == line[at],
    decreases at,
{
    if at > 0 && line[at - 1] == line[at] {
        lemma_run_start(line, at - 1);
    }
}

/// The stretch from `run_start(line, end - 1)` to `end` is a run whenever the
/// colour changes at `end` or the line stops there.
pub proof fn lemma_run_before(line: Seq<Color>, end: int)
    requires
        0 < end <= line.len(),
        end == line.len() || is_break(line, end),
    ensures
        is_run(line, run_start(line, end - 1), end),
{
    lemma_run_start(line, end - 1);
}

/// Where `d` divides every position below `end` at which the colour changes,
/// it divides the start of the run that covers `end - 1`; so it divides `end`
/// exactly when it divides the distance from that start to `end`.
pub proof fn lemma_run_length(d: int, line: Seq<Color>, end: int)
    requires
        d > 0,
        0 < end <= line.len(),
        breaks_aligned(d, line, end),
    ensures
        end - run_start(line, end - 1) > 0,
        divides(d, end - run_start(line, end - 1)) <==> divides(d, end),
{
    let start: int = run_start(line, end - 1);
    lemma_run_start(line, end - 1);
    if start == 0 {
        lemma_divides_zero(d);
    } else {
        assert(is_break(line, start));
    }
    lemma_multiple_vanishes(d, start, end);
}

/// Where `d` divides all run lengths of `line`, it divides every position
/// below `limit` at which the colour changes.
proof fn lemma_runs_align_breaks(d: int, line: Seq<Color>, limit: int)
    requires
        d > 0,
        divides_runs(d, line),
        0 <= limit <= line.len(),
    ensures
        breaks_aligned(d, line, limit),
    decreases limit,
{
    if limit > 1 {
        lemma_runs_align_breaks(d, line, limit - 1);
        let at: int = limit - 1;
        if is_break(line, at) {
            lemma_run_before(line, at);
            lemma_run_length(d, line, at);
        }
    }
}

/// On a line that is not empty, `d` divides every run length exactly when it
/// divides the length of the line and every position at which the colour
/// changes.
pub proof fn lemma_runs_and_breaks(d: int, line: Seq<Color>)
    requires
        line.len() > 0,
    ensures
        divides_runs(d, line)
            <==> divides(d, line.len() as int) && breaks_aligned(d, line, line.len() as int),
{
    let len: int = line.len() as int;
    lemma_run_before(line, len);
    if divides_runs(d, line) {
        lemma_runs_align_breaks(d, line, len);
        lemma_run_length(d, line, len);
    }
    if divides(d, len) && breaks_aligned(d, line, len) {
        assert forall|start: int, end: int| #[trigger] is_run(line, start, end)
        implies divides(d, end - start) by {
            if start == 0 {
                lemma_divides_zero(d);
            } else {
                assert(is_break(line, start));
            }
            if end < len {
                assert(line[end - 1] == line[start]);
                assert(is_break(line, end));
            }
            lemma_multiple_vanishes(d, start, end);
        }
    }
}

} // verus!
