//! Overlapping lines on a field of unsigned coordinates.
//!
//! Line segments are drawn onto a grid of counters, one increment per cell and
//! segment, and the cells on which two or more segments meet are counted:
//!
//! 1. first for the vertical and horizontal segments alone;
//!
//! 2. then for all segments, by drawing the diagonal ones (at 45°) onto the
//!    same grid.
//!
//! The points come as one flat list in which each two consecutive points are
//! the ends of one segment.
//!
//! A second approach to the same work is given in `second_implementation`.

use crate::helpers::base2d::Base2d;
use crate::helpers::grid::{lemma_offset_in_range, lemma_offset_inverse, Grid};
use crate::helpers::read::{lines, lines_of, parse_each, parsed_each, split, split_text, texts};
use crate::helpers::utils::delta::Delta;
use crate::helpers::utils::{min_max, pairs_zip};
use core::ops::AddAssign;
use vstd::prelude::*;
use vstd::string::StringSliceAdditionalSpecFns;

pub mod second_implementation;

verus! {

/// Whether `v` lies between `a` and `b`, both included, whichever of the two
/// is the smaller.
pub open spec fn between(a: int, b: int, v: int) -> bool {
    (a <= v <= b) || (b <= v <= a)
}

/// The distance between two values.
pub open spec fn distance(a: int, b: int) -> int {
    if a <= b {
        b - a
    } else {
        a - b
    }
}

/// Whether a segment can be drawn: its ends are equal, differ along one axis
/// only, or differ by the same amount along both.
pub open spec fn drawable(p0: Base2d<u16>, p1: Base2d<u16>) -> bool {
    p0.x == p1.x || p0.y == p1.y || distance(p0.x as int, p1.x as int) == distance(
        p0.y as int,
        p1.y as int,
    )
}

/// Whether the segment runs along a column or a row.
pub open spec fn straight(p0: Base2d<u16>, p1: Base2d<u16>) -> bool {
    p0.x == p1.x || p0.y == p1.y
}

/// Whether the cell `(x, y)` lies on the drawable segment from `p0` to `p1`:
/// it is inside the box that the two ends span and, where the segment is a
/// diagonal, as far from `p0` along one axis as along the other.
pub open spec fn covers(p0: Base2d<u16>, p1: Base2d<u16>, x: int, y: int) -> bool {
    &&& between(p0.x as int, p1.x as int, x)
    &&& between(p0.y as int, p1.y as int, y)
    &&& (straight(p0, p1) || distance(p0.x as int, x) == distance(p0.y as int, y))
}

/// Whether a pass draws the segment: the pass for diagonals draws those that
/// are not straight, the other pass those that are.
pub open spec fn selected(p0: Base2d<u16>, p1: Base2d<u16>, go_diagonal: bool) -> bool {
    go_diagonal != straight(p0, p1)
}

/// The segments that a flat list of points describes: the points `2i` and
/// `2i + 1` are the ends of segment `i`; a last point without a partner
/// describes none.
pub open spec fn segments(points: Seq<Base2d<u16>>) -> Seq<(Base2d<u16>, Base2d<u16>)> {
    Seq::new(points.len() / 2, |i: int| (points[2 * i], points[2 * i + 1]))
}

/// What one segment adds to the cell `(x, y)` in a pass.
pub open spec fn hit(segment: (Base2d<u16>, Base2d<u16>), go_diagonal: bool, x: int, y: int) -> nat {
    if selected(segment.0, segment.1, go_diagonal) && covers(segment.0, segment.1, x, y) {
        1
    } else {
        0
    }
}

/// How many of the segments that a pass draws lie over the cell `(x, y)`.
pub open spec fn hits(
    segments: Seq<(Base2d<u16>, Base2d<u16>)>,
    go_diagonal: bool,
    x: int,
    y: int,
) -> nat
    decreases segments.len(),
{
    if segments.len() == 0 {
        0
    } else {
        hits(segments.drop_last(), go_diagonal, x, y) + hit(segments.last(), go_diagonal, x, y)
    }
}

/// How many cells hold a value greater than one.
pub open spec fn overlap_count(cells: Seq<u16>) -> nat
    decreases cells.len(),
{
    if cells.len() == 0 {
        0
    } else {
        overlap_count(cells.drop_last()) + if cells.last() > 1 {
            1nat
        } else {
            0nat
        }
    }
}

/// `after` is `before` with one more on the cell `(x, y)` and nothing else
/// changed.
pub open spec fn marked(before: &Grid<u16>, after: &Grid<u16>, x: int, y: int) -> bool {
    &&& after.wf()
    &&& after.same_shape(before)
    &&& forall|x2: int, y2: int|
        before.in_bounds(x2, y2) ==> #[trigger] after.cell(x2, y2) == before.cell(x2, y2) + (if x2
            == x && y2 == y {
            1int
        } else {
            0int
        })
}

/// `after` is `before` with one more on every cell of the segment from `p0` to
/// `p1` and nothing else changed.
pub open spec fn drawn(
    before: &Grid<u16>,
    after: &Grid<u16>,
    p0: Base2d<u16>,
    p1: Base2d<u16>,
) -> bool {
    &&& after.wf()
    &&& after.same_shape(before)
    &&& forall|x: int, y: int|
        before.in_bounds(x, y) ==> #[trigger] after.cell(x, y) == before.cell(x, y) + (if covers(
            p0,
            p1,
            x,
            y,
        ) {
            1int
        } else {
            0int
        })
}

/// `after` is `before` with, on every cell, one more for each segment of
/// `points` that the pass draws and that lies over the cell.
pub open spec fn filled(
    before: &Grid<u16>,
    after: &Grid<u16>,
    points: Seq<Base2d<u16>>,
    go_diagonal: bool,
) -> bool {
    &&& after.wf()
    &&& after.same_shape(before)
    &&& forall|x: int, y: int|
        before.in_bounds(x, y) ==> #[trigger] after.cell(x, y) == before.cell(x, y) + hits(
            segments(points),
            go_diagonal,
            x,
            y,
        )
}

/// What a pass needs of the grid and the points: each segment that it draws
/// is drawable and ends inside the grid, and no counter is driven past the
/// largest value it can hold.
pub open spec fn fillable(grid: &Grid<u16>, points: Seq<Base2d<u16>>, go_diagonal: bool) -> bool {
    &&& grid.wf()
    &&& forall|i: int|
        0 <= i < segments(points).len() && selected(
            (#[trigger] segments(points)[i]).0,
            segments(points)[i].1,
            go_diagonal,
        ) ==> {
            &&& drawable(segments(points)[i].0, segments(points)[i].1)
            &&& grid.in_bounds(segments(points)[i].0.x as int, segments(points)[i].0.y as int)
            &&& grid.in_bounds(segments(points)[i].1.x as int, segments(points)[i].1.y as int)
        }
    &&& forall|x: int, y: int|
        grid.in_bounds(x, y) ==> #[trigger] grid.cell(x, y) + hits(
            segments(points),
            go_diagonal,
            x,
            y,
        ) <= u16::MAX
}

/// The first `i + 1` segments hit a cell as often as the first `i` do, and
/// once more if segment `i` hits it.
pub proof fn lemma_hits_step(
    segments: Seq<(Base2d<u16>, Base2d<u16>)>,
    go_diagonal: bool,
    i: int,
    x: int,
    y: int,
)
    requires
        0 <= i < segments.len(),
    ensures
        hits(segments.take(i + 1), go_diagonal, x, y) == hits(segments.take(i), go_diagonal, x, y)
            + hit(segments[i], go_diagonal, x, y),
{
    assert(segments.take(i + 1).drop_last() =~= segments.take(i));
}

/// A cell is hit by the first `i` segments at most as often as by all.
pub proof fn lemma_hits_monotone(
    segments: Seq<(Base2d<u16>, Base2d<u16>)>,
    go_diagonal: bool,
    i: int,
    x: int,
    y: int,
)
    requires
        0 <= i <= segments.len(),
    ensures
        hits(segments.take(i), go_diagonal, x, y) <= hits(segments, go_diagonal, x, y),
    decreases segments.len() - i,
{
    if i == segments.len() {
        assert(segments.take(i) =~= segments);
    } else {
        lemma_hits_step(segments, go_diagonal, i, x, y);
        lemma_hits_monotone(segments, go_diagonal, i + 1, x, y);
    }
}

/// The largest `x` among the points, 0 where there are none.
pub open spec fn largest_x(points: Seq<Base2d<u16>>) -> u16
    decreases points.len(),
{
    if points.len() == 0 {
        0
    } else if points.last().x > largest_x(points.drop_last()) {
        points.last().x
    } else {
        largest_x(points.drop_last())
    }
}

/// The largest `y` among the points, 0 where there are none.
pub open spec fn largest_y(points: Seq<Base2d<u16>>) -> u16
    decreases points.len(),
{
    if points.len() == 0 {
        0
    } else if points.last().y > largest_y(points.drop_last()) {
        points.last().y
    } else {
        largest_y(points.drop_last())
    }
}

/// No point lies beyond the largest coordinates.
pub proof fn lemma_largest_bounds(points: Seq<Base2d<u16>>, i: int)
    requires
        0 <= i < points.len(),
    ensures
        points[i].x <= largest_x(points),
        points[i].y <= largest_y(points),
    decreases points.len(),
{
    if i < points.len() - 1 {
        lemma_largest_bounds(points.drop_last(), i);
    }
}

/// The counters of the smallest field that holds every point, after the
/// straight segments have been drawn onto zeros (`with_diagonals` false) or
/// all segments have (`with_diagonals` true): row after row, each row from
/// column 0 upward.
pub open spec fn field(points: Seq<Base2d<u16>>, with_diagonals: bool) -> Seq<u16> {
    let len_x = largest_x(points) + 1;
    let len_y = largest_y(points) + 1;
    Seq::new(
        (len_x * len_y) as nat,
        |i: int|
            if with_diagonals {
                crossings(segments(points), i % len_x, i / len_x) as u16
            } else {
                hits(segments(points), false, i % len_x, i / len_x) as u16
            },
    )
}

/// What counting needs of the points: the field fits in memory, every
/// segment is drawable, and no cell lies under more segments than a counter
/// can count.
pub open spec fn countable(points: Seq<Base2d<u16>>) -> bool {
    &&& (largest_x(points) + 1) * (largest_y(points) + 1) <= usize::MAX
    &&& forall|i: int|
        0 <= i < segments(points).len() ==> drawable(
            (#[trigger] segments(points)[i]).0,
            segments(points)[i].1,
        )
    &&& forall|x: int, y: int|
        0 <= x <= largest_x(points) && 0 <= y <= largest_y(points)
            ==> #[trigger] crossings(segments(points), x, y) <= u16::MAX
}

/// Whether `grid` is the smallest field that holds every point, with every
/// counter at zero.
pub open spec fn empty_field(grid: &Grid<u16>, points: Seq<Base2d<u16>>) -> bool {
    &&& grid.wf()
    &&& grid.len_x() == largest_x(points) + 1
    &&& grid.len_y() == largest_y(points) + 1
    &&& forall|i: int| 0 <= i < grid@.len() ==> grid@[i] == 0
}

/// The empty field of countable points can take the pass for the straight
/// lines.
proof fn lemma_first_pass_fillable(points: Seq<Base2d<u16>>, start: &Grid<u16>)
    requires
        countable(points),
        empty_field(start, points),
    ensures
        fillable(start, points, false),
{
    let segs = segments(points);
    assert forall|i: int| 0 <= i < segs.len() implies {
        &&& drawable((#[trigger] segs[i]).0, segs[i].1)
        &&& start.in_bounds(segs[i].0.x as int, segs[i].0.y as int)
        &&& start.in_bounds(segs[i].1.x as int, segs[i].1.y as int)
    } by {
        lemma_largest_bounds(points, 2 * i);
        lemma_largest_bounds(points, 2 * i + 1);
    }
    assert forall|x: int, y: int| start.in_bounds(x, y) implies #[trigger] start.cell(x, y) + hits(
        segs,
        false,
        x,
        y,
    ) <= u16::MAX by {
        lemma_offset_in_range(start.len_x() as int, start.len_y() as int, x, y);
        lemma_hits_of_both_passes(segs, x, y);
        assert(crossings(segs, x, y) <= u16::MAX);
    }
}

/// After the pass for the straight lines, the field of countable points can
/// take the pass for the diagonal lines.
proof fn lemma_second_pass_fillable(
    points: Seq<Base2d<u16>>,
    start: &Grid<u16>,
    middle: &Grid<u16>,
)
    requires
        countable(points),
        empty_field(start, points),
        filled(start, middle, points, false),
    ensures
        fillable(middle, points, true),
{
    let segs = segments(points);
    assert forall|i: int| 0 <= i < segs.len() implies {
        &&& drawable((#[trigger] segs[i]).0, segs[i].1)
        &&& middle.in_bounds(segs[i].0.x as int, segs[i].0.y as int)
        &&& middle.in_bounds(segs[i].1.x as int, segs[i].1.y as int)
    } by {
        lemma_largest_bounds(points, 2 * i);
        lemma_largest_bounds(points, 2 * i + 1);
    }
    assert forall|x: int, y: int| middle.in_bounds(x, y) implies #[trigger] middle.cell(x, y)
        + hits(segs, true, x, y) <= u16::MAX by {
        lemma_offset_in_range(start.len_x() as int, start.len_y() as int, x, y);
        lemma_hits_of_both_passes(segs, x, y);
        assert(crossings(segs, x, y) <= u16::MAX);
        assert(middle.cell(x, y) == start.cell(x, y) + hits(segs, false, x, y));
    }
}

/// A grid that holds on every cell what the passes add to an empty field is
/// the field that the points describe.
proof fn lemma_field(
    points: Seq<Base2d<u16>>,
    start: &Grid<u16>,
    grid: &Grid<u16>,
    with_diagonals: bool,
)
    requires
        empty_field(start, points),
        grid.wf(),
        grid.same_shape(start),
        forall|x: int, y: int|
            start.in_bounds(x, y) ==> #[trigger] grid.cell(x, y) == start.cell(x, y) + (
            if with_diagonals {
                crossings(segments(points), x, y)
            } else {
                hits(segments(points), false, x, y)
            }),
    ensures
        grid@ == field(points, with_diagonals),
{
    let len_x = start.len_x() as int;
    let len_y = start.len_y() as int;
    assert forall|i: int| 0 <= i < grid@.len() implies grid@[i] == field(points, with_diagonals)[i] by {
        lemma_offset_inverse(len_x, len_y, i);
        let x = i % len_x;
        let y = i / len_x;
        assert(grid.cell(x, y) == grid@[i]);
        assert(start.cell(x, y) == 0);
    }
    assert(grid@ =~= field(points, with_diagonals));
}

/// Taking segment `j` out of a list takes its hit out of the count.
pub proof fn lemma_hits_remove(
    segments: Seq<(Base2d<u16>, Base2d<u16>)>,
    go_diagonal: bool,
    j: int,
    x: int,
    y: int,
)
    requires
        0 <= j < segments.len(),
    ensures
        hits(segments, go_diagonal, x, y) == hits(segments.remove(j), go_diagonal, x, y) + hit(
            segments[j],
            go_diagonal,
            x,
            y,
        ),
    decreases segments.len(),
{
    if j == segments.len() - 1 {
        assert(segments.remove(j) =~= segments.drop_last());
    } else {
        lemma_hits_remove(segments.drop_last(), go_diagonal, j, x, y);
        assert(segments.remove(j).drop_last() =~= segments.drop_last().remove(j));
        assert(segments.remove(j).last() == segments.last());
    }
}

/// The order of the segments does not matter to a cell: two lists that hold
/// the same segments, each as often as the other, hit it equally often.
pub proof fn lemma_hits_reordered(
    a: Seq<(Base2d<u16>, Base2d<u16>)>,
    b: Seq<(Base2d<u16>, Base2d<u16>)>,
    go_diagonal: bool,
    x: int,
    y: int,
)
    requires
        a.to_multiset() == b.to_multiset(),
    ensures
        hits(a, go_diagonal, x, y) == hits(b, go_diagonal, x, y),
    decreases a.len(),
{
    a.to_multiset_ensures();
    b.to_multiset_ensures();
    if a.len() == 0 {
        assert(b.len() == 0);
    } else {
        let e = a.last();
        assert(a.contains(e));
        assert(b.to_multiset().count(e) > 0);
        assert(b.contains(e));
        let j = choose|j: int| 0 <= j < b.len() && b[j] == e;
        assert(a.remove(a.len() - 1) =~= a.drop_last());
        assert(a.drop_last().to_multiset() =~= b.remove(j).to_multiset());
        lemma_hits_reordered(a.drop_last(), b.remove(j), go_diagonal, x, y);
        lemma_hits_remove(b, go_diagonal, j, x, y);
    }
}

/// The segments that a pass draws, in their order.
pub open spec fn drawn_by_pass(
    segments: Seq<(Base2d<u16>, Base2d<u16>)>,
    go_diagonal: bool,
) -> Seq<(Base2d<u16>, Base2d<u16>)>
    decreases segments.len(),
{
    if segments.len() == 0 {
        Seq::empty()
    } else if selected(segments.last().0, segments.last().1, go_diagonal) {
        drawn_by_pass(segments.drop_last(), go_diagonal).push(segments.last())
    } else {
        drawn_by_pass(segments.drop_last(), go_diagonal)
    }
}

/// The segments that a pass leaves out hit no cell.
pub proof fn lemma_hits_of_drawn(
    segments: Seq<(Base2d<u16>, Base2d<u16>)>,
    go_diagonal: bool,
    x: int,
    y: int,
)
    ensures
        hits(segments, go_diagonal, x, y) == hits(
            drawn_by_pass(segments, go_diagonal),
            go_diagonal,
            x,
            y,
        ),
    decreases segments.len(),
{
    if segments.len() > 0 {
        lemma_hits_of_drawn(segments.drop_last(), go_diagonal, x, y);
        if selected(segments.last().0, segments.last().1, go_diagonal) {
            let rest = drawn_by_pass(segments.drop_last(), go_diagonal);
            assert(rest.push(segments.last()).drop_last() =~= rest);
        }
    }
}

/// Drawing the segments of a pass in another order onto equal grids gives
/// equal grids, cell by cell, and so the same collection of cell values. The
/// segments that the pass leaves out may be any.
pub proof fn lemma_fill_order_independent(
    start: &Grid<u16>,
    first: &Grid<u16>,
    second: &Grid<u16>,
    a: Seq<Base2d<u16>>,
    b: Seq<Base2d<u16>>,
    go_diagonal: bool,
)
    requires
        start.wf(),
        filled(start, first, a, go_diagonal),
        filled(start, second, b, go_diagonal),
        drawn_by_pass(segments(a), go_diagonal).to_multiset() == drawn_by_pass(
            segments(b),
            go_diagonal,
        ).to_multiset(),
    ensures
        first@ == second@,
        first@.to_multiset() == second@.to_multiset(),
{
    let len_x = start.len_x() as int;
    let len_y = start.len_y() as int;
    assert forall|i: int| 0 <= i < first@.len() implies first@[i] == second@[i] by {
        lemma_offset_inverse(len_x, len_y, i);
        let x = i % len_x;
        let y = i / len_x;
        lemma_hits_of_drawn(segments(a), go_diagonal, x, y);
        lemma_hits_of_drawn(segments(b), go_diagonal, x, y);
        lemma_hits_reordered(
            drawn_by_pass(segments(a), go_diagonal),
            drawn_by_pass(segments(b), go_diagonal),
            go_diagonal,
            x,
            y,
        );
        assert(first.cell(x, y) == second.cell(x, y));
    }
    assert(first@ =~= second@);
}

/// How many of the segments lie over the cell `(x, y)`, straight and
/// diagonal ones alike.
pub open spec fn crossings(segments: Seq<(Base2d<u16>, Base2d<u16>)>, x: int, y: int) -> nat
    decreases segments.len(),
{
    if segments.len() == 0 {
        0
    } else {
        crossings(segments.drop_last(), x, y) + if covers(
            segments.last().0,
            segments.last().1,
            x,
            y,
        ) {
            1nat
        } else {
            0nat
        }
    }
}

/// Every segment belongs to exactly one of the two passes.
pub proof fn lemma_hits_of_both_passes(
    segments: Seq<(Base2d<u16>, Base2d<u16>)>,
    x: int,
    y: int,
)
    ensures
        hits(segments, false, x, y) + hits(segments, true, x, y) == crossings(segments, x, y),
    decreases segments.len(),
{
    if segments.len() > 0 {
        lemma_hits_of_both_passes(segments.drop_last(), x, y);
    }
}

/// The pass for the diagonals, run on the grid that the pass for the straight
/// lines has left, leaves on every cell what the cell held at the start and
/// one more for each segment over it, of whichever kind.
pub proof fn lemma_passes_accumulate(
    start: &Grid<u16>,
    middle: &Grid<u16>,
    end: &Grid<u16>,
    points: Seq<Base2d<u16>>,
)
    requires
        filled(start, middle, points, false),
        filled(middle, end, points, true),
    ensures
        end.same_shape(start),
        forall|x: int, y: int|
            start.in_bounds(x, y) ==> #[trigger] end.cell(x, y) == start.cell(x, y) + crossings(
                segments(points),
                x,
                y,
            ),
{
    assert forall|x: int, y: int| start.in_bounds(x, y) implies #[trigger] end.cell(x, y)
        == start.cell(x, y) + crossings(segments(points), x, y) by {
        lemma_hits_of_both_passes(segments(points), x, y);
        assert(middle.cell(x, y) == start.cell(x, y) + hits(segments(points), false, x, y));
    }
}

/// Adds one to the cell `(x, y)`.
fn mark(grid: &mut Grid<u16>, x: u16, y: u16)
    requires
        old(grid).wf(),
        old(grid).in_bounds(x as int, y as int),
        old(grid).cell(x as int, y as int) < u16::MAX,
    ensures
        marked(old(grid), final(grid), x as int, y as int),
{
    let ghost before = *grid;
    let cell = grid.get_mut(x as usize, y as usize);
    *cell = *cell + 1;
    proof {
        before.lemma_read_back(
            grid,
            x as int,
            y as int,
            (before.cell(x as int, y as int) + 1) as u16,
        );
    }
}

/// Updates a column line in the grid. The column is that of `p0`; the line
/// runs from the row of `p0` to the row of `p1`.
pub fn fill_column(grid: &mut Grid<u16>, p0: &Base2d<u16>, p1: &Base2d<u16>)
    requires
        old(grid).wf(),
        old(grid).in_bounds(p0.x as int, p0.y as int),
        old(grid).in_bounds(p0.x as int, p1.y as int),
        forall|y: int|
            between(p0.y as int, p1.y as int, y) ==> #[trigger] old(grid).cell(p0.x as int, y)
                < u16::MAX,
    ensures
        drawn(old(grid), final(grid), *p0, Base2d { x: p0.x, y: p1.y }),
{
    let ghost before = *grid;
    let x = p0.x;
    let (y0, y1) = min_max(p0.y, p1.y);
    let mut y: usize = y0 as usize;
    while y <= y1 as usize
        invariant
            before.wf(),
            grid.wf(),
            grid.same_shape(&before),
            x == p0.x,
            y0 <= y <= y1 + 1,
            y0 <= y1,
            between(p0.y as int, p1.y as int, y0 as int),
            between(p0.y as int, p1.y as int, y1 as int),
            before.in_bounds(x as int, y0 as int),
            before.in_bounds(x as int, y1 as int),
            forall|y2: int|
                between(p0.y as int, p1.y as int, y2) ==> #[trigger] before.cell(x as int, y2)
                    < u16::MAX,
            forall|x2: int, y2: int|
                before.in_bounds(x2, y2) ==> #[trigger] grid.cell(x2, y2) == before.cell(x2, y2)
                    + (if x2 == x && y0 <= y2 < y {
                    1int
                } else {
                    0int
                }),
        decreases y1 + 1 - y,
    {
        let ghost previous = *grid;
        assert(previous.cell(x as int, y as int) == before.cell(x as int, y as int));
        mark(grid, x, y as u16);
        assert forall|x2: int, y2: int| before.in_bounds(x2, y2) implies #[trigger] grid.cell(
            x2,
            y2,
        ) == before.cell(x2, y2) + (if x2 == x && y0 <= y2 < y + 1 {
            1int
        } else {
            0int
        }) by {
            assert(previous.cell(x2, y2) == before.cell(x2, y2) + (if x2 == x && y0 <= y2 < y {
                1int
            } else {
                0int
            }));
        }
        y += 1;
    }
}

/// Updates a row line in the grid. The row is that of `p0`; the line runs from
/// the column of `p0` to the column of `p1`.
pub fn fill_row(grid: &mut Grid<u16>, p0: &Base2d<u16>, p1: &Base2d<u16>)
    requires
        old(grid).wf(),
        old(grid).in_bounds(p0.x as int, p0.y as int),
        old(grid).in_bounds(p1.x as int, p0.y as int),
        forall|x: int|
            between(p0.x as int, p1.x as int, x) ==> #[trigger] old(grid).cell(x, p0.y as int)
                < u16::MAX,
    ensures
        drawn(old(grid), final(grid), *p0, Base2d { x: p1.x, y: p0.y }),
{
    let ghost before = *grid;
    let y = p0.y;
    let (x0, x1) = min_max(p0.x, p1.x);
    let mut x: usize = x0 as usize;
    while x <= x1 as usize
        invariant
            before.wf(),
            grid.wf(),
            grid.same_shape(&before),
            y == p0.y,
            x0 <= x <= x1 + 1,
            x0 <= x1,
            between(p0.x as int, p1.x as int, x0 as int),
            between(p0.x as int, p1.x as int, x1 as int),
            before.in_bounds(x0 as int, y as int),
            before.in_bounds(x1 as int, y as int),
            forall|x2: int|
                between(p0.x as int, p1.x as int, x2) ==> #[trigger] before.cell(x2, y as int)
                    < u16::MAX,
            forall|x2: int, y2: int|
                before.in_bounds(x2, y2) ==> #[trigger] grid.cell(x2, y2) == before.cell(x2, y2)
                    + (if y2 == y && x0 <= x2 < x {
                    1int
                } else {
                    0int
                }),
        decreases x1 + 1 - x,
    {
        let ghost previous = *grid;
        assert(previous.cell(x as int, y as int) == before.cell(x as int, y as int));
        mark(grid, x as u16, y);
        assert forall|x2: int, y2: int| before.in_bounds(x2, y2) implies #[trigger] grid.cell(
            x2,
            y2,
        ) == before.cell(x2, y2) + (if y2 == y && x0 <= x2 < x + 1 {
            1int
        } else {
            0int
        }) by {
            assert(previous.cell(x2, y2) == before.cell(x2, y2) + (if y2 == y && x0 <= x2 < x {
                1int
            } else {
                0int
            }));
        }
        x += 1;
    }
}

/// Updates a diagonal line in the grid (a diagonal at 45°), from `p0` to
/// `p1`, one step along both axes at a time.
pub fn fill_diagonal(grid: &mut Grid<u16>, p0: &Base2d<u16>, p1: &Base2d<u16>)
    requires
        old(grid).wf(),
        !straight(*p0, *p1),
        drawable(*p0, *p1),
        old(grid).in_bounds(p0.x as int, p0.y as int),
        old(grid).in_bounds(p1.x as int, p1.y as int),
        forall|x: int, y: int|
            covers(*p0, *p1, x, y) ==> #[trigger] old(grid).cell(x, y) < u16::MAX,
    ensures
        drawn(old(grid), final(grid), *p0, *p1),
{
    let ghost before = *grid;
    let ghost n = distance(p0.x as int, p1.x as int);
    let dx = Delta::new(p0.x, p1.x, 1);
    let dy = Delta::new(p0.y, p1.y, 1);

    let (mut x, mut y) = p0.tuple();
    assert(covers(*p0, *p1, x as int, y as int));
    mark(grid, x, y);
    let ghost mut k: int = 0;
    loop
        invariant_except_break
            0 <= k < n,
        invariant
            before.wf(),
            grid.wf(),
            grid.same_shape(&before),
            n == distance(p0.x as int, p1.x as int),
            n == distance(p0.y as int, p1.y as int),
            before.in_bounds(p0.x as int, p0.y as int),
            before.in_bounds(p1.x as int, p1.y as int),
            dx == (if p1.x > p0.x {
                Delta::Add(1u16)
            } else {
                Delta::Sub(1u16)
            }),
            dy == (if p1.y > p0.y {
                Delta::Add(1u16)
            } else {
                Delta::Sub(1u16)
            }),
            0 <= k <= n,
            between(p0.x as int, p1.x as int, x as int),
            between(p0.y as int, p1.y as int, y as int),
            distance(p0.x as int, x as int) == k,
            distance(p0.y as int, y as int) == k,
            forall|x2: int, y2: int|
                covers(*p0, *p1, x2, y2) ==> #[trigger] before.cell(x2, y2) < u16::MAX,
            forall|x2: int, y2: int|
                before.in_bounds(x2, y2) ==> #[trigger] grid.cell(x2, y2) == before.cell(x2, y2)
                    + (if covers(*p0, *p1, x2, y2) && distance(p0.x as int, x2) <= k {
                    1int
                } else {
                    0int
                }),
        ensures
            k == n,
        decreases n - k,
    {
        x.add_assign(dx);
        y.add_assign(dy);
        let ghost previous = *grid;
        assert(covers(*p0, *p1, x as int, y as int));
        assert(previous.cell(x as int, y as int) == before.cell(x as int, y as int));
        mark(grid, x, y);
        proof {
            assert forall|x2: int, y2: int| before.in_bounds(x2, y2) implies #[trigger] grid.cell(
                x2,
                y2,
            ) == before.cell(x2, y2) + (if covers(*p0, *p1, x2, y2) && distance(
                p0.x as int,
                x2,
            ) <= k + 1 {
                1int
            } else {
                0int
            }) by {
                assert(previous.cell(x2, y2) == before.cell(x2, y2) + (if covers(
                    *p0,
                    *p1,
                    x2,
                    y2,
                ) && distance(p0.x as int, x2) <= k {
                    1int
                } else {
                    0int
                }));
            }
            k = k + 1;
        }
        if x == p1.x && y == p1.y {
            break ;
        }
    }
}

/// Fills the grid by straight lines (columns and rows) or by diagonal lines
/// (at 45°). Each pair of points in `input` defines a line, and `go_diagonal`
/// says which lines are drawn: the diagonal ones (`true`) or the straight
/// ones (`false`). The others leave the grid as it is.
pub fn fill_grid(grid: &mut Grid<u16>, input: &[Base2d<u16>], go_diagonal: bool)
    requires
        fillable(old(grid), input@, go_diagonal),
    ensures
        filled(old(grid), final(grid), input@, go_diagonal),
{
    let ghost before = *grid;
    let ghost segs = segments(input@);
    let lines = pairs_zip(input);
    let mut i: usize = 0;
    assert(segs.take(0) =~= Seq::empty());
    while i < lines.len()
        invariant
            segs == segments(input@),
            lines@.len() == segs.len(),
            forall|k: int|
                0 <= k < lines@.len() ==> *(#[trigger] lines@[k]).0 == input@[2 * k]
                    && *lines@[k].1 == input@[2 * k + 1],
            i <= lines@.len(),
            fillable(&before, input@, go_diagonal),
            grid.wf(),
            grid.same_shape(&before),
            forall|x: int, y: int|
                before.in_bounds(x, y) ==> #[trigger] grid.cell(x, y) == before.cell(x, y) + hits(
                    segs.take(i as int),
                    go_diagonal,
                    x,
                    y,
                ),
        decreases lines@.len() - i,
    {
        let (p0, p1) = lines[i];
        let ghost previous = *grid;
        assert(segs[i as int] == (*p0, *p1));
        proof {
            assert forall|x: int, y: int| before.in_bounds(x, y) implies hits(
                segs.take(i + 1),
                go_diagonal,
                x,
                y,
            ) == hits(segs.take(i as int), go_diagonal, x, y) + hit(
                segs[i as int],
                go_diagonal,
                x,
                y,
            ) && #[trigger] previous.cell(x, y) + hit(segs[i as int], go_diagonal, x, y)
                <= u16::MAX by {
                lemma_hits_step(segs, go_diagonal, i as int, x, y);
                lemma_hits_monotone(segs, go_diagonal, i + 1, x, y);
            }
        }
        if !go_diagonal {
            if p0.is_same_column(p1) {
                fill_column(grid, p0, p1);
                assert(Base2d { x: p0.x, y: p1.y } == *p1);
            } else if p0.is_same_row(p1) {
                fill_row(grid, p0, p1);
                assert(Base2d { x: p1.x, y: p0.y } == *p1);
            }
        } else if !p0.is_same_column(p1) && !p0.is_same_row(p1) {
            fill_diagonal(grid, p0, p1);
        }
        assert forall|x: int, y: int| before.in_bounds(x, y) implies #[trigger] grid.cell(x, y)
            == before.cell(x, y) + hits(segs.take(i + 1), go_diagonal, x, y) by {
            assert(previous.cell(x, y) == before.cell(x, y) + hits(
                segs.take(i as int),
                go_diagonal,
                x,
                y,
            ));
        }
        i += 1;
    }
    assert(segs.take(i as int) =~= segs);
}

/// Fills a grid using only straight lines and returns the number of
/// positions where at least two lines intercept.
pub fn overlaps_straight_lines(grid: &mut Grid<u16>, input: &[Base2d<u16>]) -> (overlaps: usize)
    requires
        fillable(old(grid), input@, false),
    ensures
        filled(old(grid), final(grid), input@, false),
        overlaps == overlap_count(final(grid)@),
{
    fill_grid(grid, input, false);
    count_overlaps(grid)
}

/// Fills a grid using only diagonal lines and returns the number of positions
/// where at least two lines intercept. What the grid held before stays in
/// it and is counted too.
pub fn overlaps_diagonal_lines(grid: &mut Grid<u16>, input: &[Base2d<u16>]) -> (overlaps: usize)
    requires
        fillable(old(grid), input@, true),
    ensures
        filled(old(grid), final(grid), input@, true),
        overlaps == overlap_count(final(grid)@),
{
    fill_grid(grid, input, true);
    count_overlaps(grid)
}

/// No more segments lie over a cell than there are segments.
pub proof fn lemma_crossings_at_most_len(
    segments: Seq<(Base2d<u16>, Base2d<u16>)>,
    x: int,
    y: int,
)
    ensures
        crossings(segments, x, y) <= segments.len(),
    decreases segments.len(),
{
    if segments.len() > 0 {
        lemma_crossings_at_most_len(segments.drop_last(), x, y);
    }
}

/// Tests whether the points can be counted without knowing more of them than
/// their number: the field fits in memory, every segment is drawable, and
/// there are no more segments than a counter can count. Points that pass
/// are countable; points with more segments may be countable and not pass.
pub fn can_count(input: &[Base2d<u16>]) -> (ok: bool)
    ensures
        ok ==> countable(input@),
        ok <==> {
            &&& (largest_x(input@) + 1) * (largest_y(input@) + 1) <= usize::MAX
            &&& forall|i: int|
                0 <= i < segments(input@).len() ==> drawable(
                    (#[trigger] segments(input@)[i]).0,
                    segments(input@)[i].1,
                )
            &&& segments(input@).len() <= u16::MAX
        },
{
    let mut len_x: u16 = 0;
    let mut len_y: u16 = 0;
    let mut i: usize = 0;
    assert(input@.take(0) =~= Seq::empty());
    while i < input.len()
        invariant
            i <= input@.len(),
            len_x == largest_x(input@.take(i as int)),
            len_y == largest_y(input@.take(i as int)),
        decreases input@.len() - i,
    {
        assert(input@.take(i + 1).drop_last() =~= input@.take(i as int));
        let b = &input[i];
        if b.x > len_x {
            len_x = b.x;
        }
        if b.y > len_y {
            len_y = b.y;
        }
        i += 1;
    }
    assert(input@.take(i as int) =~= input@);
    assert((len_x + 1) * (len_y + 1) <= 65536 * 65536) by (nonlinear_arith)
        requires
            0 <= len_x <= 65535,
            0 <= len_y <= 65535,
    ;
    let cells: u64 = (len_x as u64 + 1) * (len_y as u64 + 1);
    if cells > usize::MAX as u64 {
        return false;
    }
    let lines = pairs_zip(input);
    if lines.len() > 65535 {
        return false;
    }
    let mut k: usize = 0;
    while k < lines.len()
        invariant
            lines@.len() == segments(input@).len(),
            forall|j: int|
                0 <= j < lines@.len() ==> *(#[trigger] lines@[j]).0 == input@[2 * j]
                    && *lines@[j].1 == input@[2 * j + 1],
            k <= lines@.len(),
            forall|j: int|
                0 <= j < k ==> drawable(
                    (#[trigger] segments(input@)[j]).0,
                    segments(input@)[j].1,
                ),
        decreases lines@.len() - k,
    {
        let (p0, p1) = lines[k];
        assert(segments(input@)[k as int] == (*p0, *p1));
        let (x0, x1) = min_max(p0.x, p1.x);
        let (y0, y1) = min_max(p0.y, p1.y);
        if !(p0.is_same_column(p1) || p0.is_same_row(p1) || x1 - x0 == y1 - y0) {
            return false;
        }
        k += 1;
    }
    proof {
        assert forall|x: int, y: int|
            0 <= x <= largest_x(input@) && 0 <= y <= largest_y(input@)
                implies #[trigger] crossings(segments(input@), x, y) <= u16::MAX by {
            lemma_crossings_at_most_len(segments(input@), x, y);
        }
    }
    true
}

/// The token between the two ends of a segment: an arrow between spaces.
pub open spec fn arrow() -> Seq<u8> {
    seq![32u8, 45u8, 62u8, 32u8]
}

/// The points that the lines hold, in order: each line is cut at the arrows,
/// and each piece that is two numbers with a comma between them is a point.
/// The other pieces are left out.
pub open spec fn points_of(lines: Seq<Seq<u8>>) -> Seq<Base2d<u16>>
    decreases lines.len(),
{
    if lines.len() == 0 {
        Seq::empty()
    } else {
        points_of(lines.drop_last()) + parsed_each::<Base2d<u16>>(
            split_text(lines.last(), arrow()),
        )
    }
}

/// Reads the points from the bytes of a text in which each line holds one
/// segment, as in `0,9 -> 5,9`.
pub fn read_points(text: &[u8]) -> (points: Vec<Base2d<u16>>)
    ensures
        points@ == points_of(lines_of(text@)),
{
    let token: [u8; 4] = [32, 45, 62, 32];
    assert(token@ =~= arrow());
    let found = lines(text);
    let mut points: Vec<Base2d<u16>> = Vec::new();
    let mut i: usize = 0;
    assert(texts(found@).take(0) =~= Seq::empty());
    while i < found.len()
        invariant
            token@ == arrow(),
            texts(found@) == lines_of(text@),
            i <= found@.len(),
            points@ == points_of(texts(found@).take(i as int)),
        decreases found@.len() - i,
    {
        proof {
            assert(texts(found@).take(i + 1).drop_last() =~= texts(found@).take(i as int));
            assert(texts(found@).take(i + 1).last() == found@[i as int]@);
        }
        let pieces = split(found[i], token.as_slice());
        let mut inner: Vec<Base2d<u16>> = parse_each(&pieces);
        points.append(&mut inner);
        i += 1;
    }
    assert(texts(found@).take(i as int) =~= texts(found@));
    points
}

/// Returns the points of the input, two for each line that holds a segment.
pub fn parse_input(input: &str) -> (points: Vec<Base2d<u16>>)
    ensures
        points@ == points_of(lines_of(input.spec_bytes())),
{
    read_points(input.as_bytes())
}

/// Counts the overlaps on the smallest field that holds every point of
/// `input`: first those of the straight lines alone, then, with the diagonal
/// lines drawn onto the same field, those of all lines.
pub fn run(input: &[Base2d<u16>]) -> (counts: (usize, usize))
    requires
        countable(input@),
    ensures
        counts.0 == overlap_count(field(input@, false)),
        counts.1 == overlap_count(field(input@, true)),
{
    // calculates max lengths to create a grid
    let mut len_x: u16 = 0;
    let mut len_y: u16 = 0;
    let mut i: usize = 0;
    assert(input@.take(0) =~= Seq::empty());
    while i < input.len()
        invariant
            i <= input@.len(),
            len_x == largest_x(input@.take(i as int)),
            len_y == largest_y(input@.take(i as int)),
        decreases input@.len() - i,
    {
        assert(input@.take(i + 1).drop_last() =~= input@.take(i as int));
        let b = &input[i];
        if b.x > len_x {
            len_x = b.x;
        }
        if b.y > len_y {
            len_y = b.y;
        }
        i += 1;
    }
    assert(input@.take(i as int) =~= input@);

    // +1 because initial position is (0, 0)
    let mut grid = Grid::new(len_x as usize + 1, len_y as usize + 1, 0u16);
    let ghost start = grid;
    proof {
        lemma_first_pass_fillable(input@, &start);
    }
    let count_overlaps_straight = overlaps_straight_lines(&mut grid, input);
    let ghost middle = grid;
    proof {
        lemma_second_pass_fillable(input@, &start, &middle);
        lemma_field(input@, &start, &middle, false);
    }
    let count_overlaps_all = overlaps_diagonal_lines(&mut grid, input);
    proof {
        lemma_passes_accumulate(&start, &middle, &grid, input@);
        lemma_field(input@, &start, &grid, true);
    }
    (count_overlaps_straight, count_overlaps_all)
}

/// Counts the cells that hold a value greater than one.
fn count_overlaps(grid: &Grid<u16>) -> (overlaps: usize)
    ensures
        overlaps == overlap_count(grid@),
{
    let mut overlaps: usize = 0;
    proof {
        grid.lemma_size_fits();
        assert(grid@.take(0) =~= Seq::empty());
    }
    for value in cells: grid.iter()
        invariant
            grid@.len() <= usize::MAX,
            cells.seq().len() == grid@.len(),
            cells.index() <= cells.seq().len(),
            forall|i: int| 0 <= i < grid@.len() ==> *cells.seq()[i] == grid@[i],
            overlaps == overlap_count(grid@.take(cells.index() as int)),
            overlaps <= cells.index(),
    {
        proof {
            let i = cells.index() as int;
            assert(grid@.take(i + 1).drop_last() =~= grid@.take(i));
        }
        if *value > 1 {
            overlaps += 1;
        }
    }
    assert(grid@.take(grid@.len() as int) =~= grid@);
    overlaps
}

} // verus!
