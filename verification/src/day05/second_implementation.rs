//! The same counting with the segments filtered by a pattern and every kind
//! of segment drawn by one stepping loop.

use crate::day05::{
    between, countable, covers, distance, drawable, drawn, field, fillable, filled, hits,
    largest_x, largest_y, lemma_field, lemma_first_pass_fillable, lemma_passes_accumulate,
    lemma_second_pass_fillable, mark, overlap_count, points_of, read_points, segments, straight,
};
use crate::helpers::base2d::Base2d;
use crate::helpers::grid::Grid;
use crate::helpers::read::{lines_of, ParseError};
use crate::helpers::utils::delta::Delta;
use core::ops::AddAssign;
use core::str::FromStr;
use itertools::Itertools;
use vstd::prelude::*;
use vstd::string::StringSliceAdditionalSpecFns;

verus! {

/// A line: its two ends.
pub type Line = (Base2d<u16>, Base2d<u16>);

/// A flat list of points in which each two consecutive points are the ends of
/// one line.
pub struct Lines(pub Vec<Base2d<u16>>);

/// The kinds of line that an update can be restricted to.
#[derive(PartialEq)]
pub enum LinePattern {
    /// Any line.
    All,
    /// 45° diagonal lines.
    Diagonal,
    /// Lines within one row.
    Horizontal,
    /// Horizontal or vertical lines.
    Straight,
    /// Lines within one column.
    Vertical,
}

impl View for Lines {
    type V = Seq<Base2d<u16>>;

    /// The points, in order.
    open spec fn view(&self) -> Seq<Base2d<u16>> {
        self.0@
    }
}

impl Lines {
    /// Reads the lines of a text in which each line holds one segment, as in
    /// `0,9 -> 5,9`. Every text stands for lines: for those of the points
    /// that it holds.
    pub fn parse(s: &str) -> (lines: Lines)
        ensures
            lines@ == points_of(lines_of(s.spec_bytes())),
    {
        Lines(read_points(s.as_bytes()))
    }
}

impl FromStr for Lines {
    type Err = ParseError;

    /// Reads the lines of a text in which each line holds one segment.
    /// Every string stands for lines: for those of the points that it holds.
    fn from_str(s: &str) -> (value: Result<Self, ParseError>)
        ensures
            value matches Ok(lines) && lines@ == points_of(lines_of(s.spec_bytes())),
    {
        Ok(Lines::parse(s))
    }
}

/// Whether a line is of the kind that the pattern names.
pub open spec fn fits(filter: LinePattern, line: Line) -> bool {
    match filter {
        LinePattern::All => true,
        LinePattern::Horizontal => line.0.y == line.1.y,
        LinePattern::Vertical => line.0.x == line.1.x,
        LinePattern::Straight => straight(line.0, line.1),
        LinePattern::Diagonal => !straight(line.0, line.1),
    }
}

/// How many of the lines that fit the pattern lie over the cell `(x, y)`.
pub open spec fn pattern_hits(lines: Seq<Line>, filter: LinePattern, x: int, y: int) -> nat
    decreases lines.len(),
{
    if lines.len() == 0 {
        0
    } else {
        pattern_hits(lines.drop_last(), filter, x, y) + if fits(filter, lines.last()) && covers(
            lines.last().0,
            lines.last().1,
            x,
            y,
        ) {
            1nat
        } else {
            0nat
        }
    }
}

/// What an update needs of the grid and the lines: each line that fits the
/// pattern is drawable and ends inside the grid, and no counter is driven
/// past the largest value it can hold.
pub open spec fn updatable(grid: &Grid<u16>, lines: Seq<Line>, filter: LinePattern) -> bool {
    &&& grid.wf()
    &&& forall|i: int|
        0 <= i < lines.len() && fits(filter, #[trigger] lines[i]) ==> {
            &&& drawable(lines[i].0, lines[i].1)
            &&& grid.in_bounds(lines[i].0.x as int, lines[i].0.y as int)
            &&& grid.in_bounds(lines[i].1.x as int, lines[i].1.y as int)
        }
    &&& forall|x: int, y: int|
        grid.in_bounds(x, y) ==> #[trigger] grid.cell(x, y) + pattern_hits(lines, filter, x, y)
            <= u16::MAX
}

/// `after` is `before` with, on every cell, one more for each line that fits
/// the pattern and lies over the cell.
pub open spec fn updated(
    before: &Grid<u16>,
    after: &Grid<u16>,
    lines: Seq<Line>,
    filter: LinePattern,
) -> bool {
    &&& after.wf()
    &&& after.same_shape(before)
    &&& forall|x: int, y: int|
        before.in_bounds(x, y) ==> #[trigger] after.cell(x, y) == before.cell(x, y)
            + pattern_hits(lines, filter, x, y)
}

/// The patterns for straight and for diagonal lines select what the two
/// passes over a flat list of points select.
pub proof fn lemma_pattern_hits_of_passes(lines: Seq<Line>, x: int, y: int)
    ensures
        pattern_hits(lines, LinePattern::Straight, x, y) == hits(lines, false, x, y),
        pattern_hits(lines, LinePattern::Diagonal, x, y) == hits(lines, true, x, y),
    decreases lines.len(),
{
    if lines.len() > 0 {
        lemma_pattern_hits_of_passes(lines.drop_last(), x, y);
    }
}

/// The pattern that selects what a pass over a flat list of points draws.
pub open spec fn pattern_of_pass(go_diagonal: bool) -> LinePattern {
    if go_diagonal {
        LinePattern::Diagonal
    } else {
        LinePattern::Straight
    }
}

/// A grid that can take a pass can take the update with the pattern of that
/// pass.
pub proof fn lemma_fillable_is_updatable(
    grid: &Grid<u16>,
    points: Seq<Base2d<u16>>,
    go_diagonal: bool,
)
    requires
        fillable(grid, points, go_diagonal),
    ensures
        updatable(grid, segments(points), pattern_of_pass(go_diagonal)),
{
    let lines = segments(points);
    let filter = pattern_of_pass(go_diagonal);
    assert forall|x: int, y: int| grid.in_bounds(x, y) implies #[trigger] grid.cell(x, y)
        + pattern_hits(lines, filter, x, y) <= u16::MAX by {
        lemma_pattern_hits_of_passes(lines, x, y);
        assert(grid.cell(x, y) + hits(lines, go_diagonal, x, y) <= u16::MAX);
    }
}

/// The update with the pattern of a pass leaves the grid as the pass does.
pub proof fn lemma_updated_is_filled(
    before: &Grid<u16>,
    after: &Grid<u16>,
    points: Seq<Base2d<u16>>,
    go_diagonal: bool,
)
    requires
        updated(before, after, segments(points), pattern_of_pass(go_diagonal)),
    ensures
        filled(before, after, points, go_diagonal),
{
    assert forall|x: int, y: int| before.in_bounds(x, y) implies #[trigger] after.cell(x, y)
        == before.cell(x, y) + hits(segments(points), go_diagonal, x, y) by {
        lemma_pattern_hits_of_passes(segments(points), x, y);
    }
}

/// The first `i + 1` lines hit a cell as often as the first `i` do, and once
/// more if line `i` fits the pattern and lies over it.
proof fn lemma_pattern_hits_step(lines: Seq<Line>, filter: LinePattern, i: int, x: int, y: int)
    requires
        0 <= i < lines.len(),
    ensures
        pattern_hits(lines.take(i + 1), filter, x, y) == pattern_hits(lines.take(i), filter, x, y)
            + if fits(filter, lines[i]) && covers(lines[i].0, lines[i].1, x, y) {
            1nat
        } else {
            0nat
        },
{
    assert(lines.take(i + 1).drop_last() =~= lines.take(i));
}

/// A cell is hit by the first `i` lines at most as often as by all.
proof fn lemma_pattern_hits_monotone(lines: Seq<Line>, filter: LinePattern, i: int, x: int, y: int)
    requires
        0 <= i <= lines.len(),
    ensures
        pattern_hits(lines.take(i), filter, x, y) <= pattern_hits(lines, filter, x, y),
    decreases lines.len() - i,
{
    if i == lines.len() {
        assert(lines.take(i) =~= lines);
    } else {
        lemma_pattern_hits_step(lines, filter, i, x, y);
        lemma_pattern_hits_monotone(lines, filter, i + 1, x, y);
    }
}

/// Groups the points two by two with `itertools::Itertools::tuples`, which
/// hands out the items of an iterator in tuples of consecutive items and
/// leaves out the items at the end that do not fill a tuple. The contract
/// says so for tuples of two: pair `i` holds the points `2i` and `2i + 1`.
#[verifier::external_body]
fn tuples(points: &Vec<Base2d<u16>>) -> (pairs: Vec<Line>)
    ensures
        pairs@ == segments(points@),
{
    points.iter().copied().tuples().collect()
}

/// Whether a line is of the kind that the pattern names.
pub fn filter_criteria(filter: &LinePattern, line: &Line) -> (keep: bool)
    ensures
        keep == fits(*filter, *line),
{
    match filter {
        LinePattern::All => true,
        LinePattern::Horizontal => line.0.is_same_row(&line.1),
        LinePattern::Vertical => line.0.is_same_column(&line.1),
        LinePattern::Straight => line.0.is_same_column(&line.1) || line.0.is_same_row(&line.1),
        LinePattern::Diagonal => !(line.0.is_same_column(&line.1) || line.0.is_same_row(&line.1)),
    }
}

/// How far along the line from `p0` the cell `(x, y)` lies, in steps.
pub open spec fn steps_from(p0: Base2d<u16>, x: int, y: int) -> int {
    if distance(p0.x as int, x) >= distance(p0.y as int, y) {
        distance(p0.x as int, x)
    } else {
        distance(p0.y as int, y)
    }
}

/// Updates the positions under a given line in the grid (vertical,
/// horizontal or diagonal at 45°): starting at the first end, each cell up to
/// and including the other end gets one more, once.
pub fn update_grid_line(grid: &mut Grid<u16>, line: Line)
    requires
        old(grid).wf(),
        drawable(line.0, line.1),
        old(grid).in_bounds(line.0.x as int, line.0.y as int),
        old(grid).in_bounds(line.1.x as int, line.1.y as int),
        forall|x: int, y: int|
            covers(line.0, line.1, x, y) ==> #[trigger] old(grid).cell(x, y) < u16::MAX,
    ensures
        drawn(old(grid), final(grid), line.0, line.1),
{
    let ghost before = *grid;
    let (p0, p1) = line;
    let ghost n = steps_from(p0, p1.x as int, p1.y as int);
    let dx = Delta::new(
        p0.x,
        p1.x,
        if p0.is_same_column(&p1) {
            0
        } else {
            1
        },
    );
    let dy = Delta::new(
        p0.y,
        p1.y,
        if p0.is_same_row(&p1) {
            0
        } else {
            1
        },
    );

    let (mut x, mut y) = p0.tuple();
    assert(covers(p0, p1, x as int, y as int));
    mark(grid, x, y);
    let ghost mut k: int = 0;
    while !(x == p1.x && y == p1.y)
        invariant
            before.wf(),
            grid.wf(),
            grid.same_shape(&before),
            drawable(p0, p1),
            n == steps_from(p0, p1.x as int, p1.y as int),
            before.in_bounds(p0.x as int, p0.y as int),
            before.in_bounds(p1.x as int, p1.y as int),
            dx == (if p0.x == p1.x {
                Delta::Sub(0u16)
            } else if p1.x > p0.x {
                Delta::Add(1u16)
            } else {
                Delta::Sub(1u16)
            }),
            dy == (if p0.y == p1.y {
                Delta::Sub(0u16)
            } else if p1.y > p0.y {
                Delta::Add(1u16)
            } else {
                Delta::Sub(1u16)
            }),
            0 <= k <= n,
            between(p0.x as int, p1.x as int, x as int),
            between(p0.y as int, p1.y as int, y as int),
            p0.x != p1.x ==> distance(p0.x as int, x as int) == k,
            p0.y != p1.y ==> distance(p0.y as int, y as int) == k,
            forall|x2: int, y2: int|
                covers(p0, p1, x2, y2) ==> #[trigger] before.cell(x2, y2) < u16::MAX,
            forall|x2: int, y2: int|
                before.in_bounds(x2, y2) ==> #[trigger] grid.cell(x2, y2) == before.cell(x2, y2)
                    + (if covers(p0, p1, x2, y2) && steps_from(p0, x2, y2) <= k {
                    1int
                } else {
                    0int
                }),
        decreases n - k,
    {
        x.add_assign(dx);
        y.add_assign(dy);
        let ghost previous = *grid;
        assert(covers(p0, p1, x as int, y as int));
        assert(previous.cell(x as int, y as int) == before.cell(x as int, y as int));
        mark(grid, x, y);
        proof {
            assert forall|x2: int, y2: int| before.in_bounds(x2, y2) implies #[trigger] grid.cell(
                x2,
                y2,
            ) == before.cell(x2, y2) + (if covers(p0, p1, x2, y2) && steps_from(p0, x2, y2) <= k
                + 1 {
                1int
            } else {
                0int
            }) by {
                assert(previous.cell(x2, y2) == before.cell(x2, y2) + (if covers(p0, p1, x2, y2)
                    && steps_from(p0, x2, y2) <= k {
                    1int
                } else {
                    0int
                }));
            }
            k = k + 1;
        }
    }
}

impl Lines {
    /// The lines: each two consecutive points, in order. A last point
    /// without a partner belongs to no line.
    pub fn pairs(&self) -> (lines: Vec<Line>)
        ensures
            lines@ == segments(self@),
    {
        tuples(&self.0)
    }

    /// Reads all points and returns the largest `x` and the largest `y`
    /// among them, `(0, 0)` where there are none.
    pub fn max_dimensions(&self) -> (max: (u16, u16))
        ensures
            max.0 == largest_x(self@),
            max.1 == largest_y(self@),
    {
        let mut lx: u16 = 0;
        let mut ly: u16 = 0;
        let mut i: usize = 0;
        assert(self@.take(0) =~= Seq::empty());
        while i < self.0.len()
            invariant
                i <= self@.len(),
                lx == largest_x(self@.take(i as int)),
                ly == largest_y(self@.take(i as int)),
            decreases self@.len() - i,
        {
            assert(self@.take(i + 1).drop_last() =~= self@.take(i as int));
            let b = &self.0[i];
            if b.x > lx {
                lx = b.x;
            }
            if b.y > ly {
                ly = b.y;
            }
            i += 1;
        }
        assert(self@.take(i as int) =~= self@);
        (lx, ly)
    }
}

/// Updates the `grid` according to the list of `lines` and a `filter`
/// criterion and then returns the total of overlapped positions: the number
/// of cells that more than one line has been drawn over, counting what the
/// grid held before.
pub fn overlap_lines(grid: &mut Grid<u16>, lines: &Lines, filter: LinePattern) -> (overlaps: usize)
    requires
        updatable(old(grid), segments(lines@), filter),
    ensures
        updated(old(grid), final(grid), segments(lines@), filter),
        overlaps == overlap_count(final(grid)@),
{
    let ghost before = *grid;
    let ghost all = segments(lines@);
    let pairs = lines.pairs();
    let mut i: usize = 0;
    assert(all.take(0) =~= Seq::empty());
    while i < pairs.len()
        invariant
            pairs@ == all,
            i <= pairs@.len(),
            updatable(&before, all, filter),
            grid.wf(),
            grid.same_shape(&before),
            forall|x: int, y: int|
                before.in_bounds(x, y) ==> #[trigger] grid.cell(x, y) == before.cell(x, y)
                    + pattern_hits(all.take(i as int), filter, x, y),
        decreases pairs@.len() - i,
    {
        let line = pairs[i];
        let ghost previous = *grid;
        assert(line == all[i as int]);
        if filter_criteria(&filter, &line) {
            assert forall|x: int, y: int| covers(line.0, line.1, x, y) implies #[trigger] grid.cell(
                x,
                y,
            ) < u16::MAX by {
                lemma_pattern_hits_step(all, filter, i as int, x, y);
                lemma_pattern_hits_monotone(all, filter, i + 1, x, y);
                assert(before.in_bounds(x, y));
            }
            update_grid_line(grid, line);
        }
        assert forall|x: int, y: int| before.in_bounds(x, y) implies #[trigger] grid.cell(x, y)
            == before.cell(x, y) + pattern_hits(all.take(i + 1), filter, x, y) by {
            lemma_pattern_hits_step(all, filter, i as int, x, y);
            assert(previous.cell(x, y) == before.cell(x, y) + pattern_hits(
                all.take(i as int),
                filter,
                x,
                y,
            ));
        }
        i += 1;
    }
    assert(all.take(i as int) =~= all);
    super::count_overlaps(grid)
}

/// Counts the overlaps on the smallest field that holds every point of
/// `lines`: first those of the straight lines alone, then, with the diagonal
/// lines drawn onto the same field, those of all lines.
pub fn run(lines: &Lines) -> (counts: (usize, usize))
    requires
        countable(lines@),
    ensures
        counts.0 == overlap_count(field(lines@, false)),
        counts.1 == overlap_count(field(lines@, true)),
{
    // calculates max lengths to create a grid
    let (len_x, len_y) = lines.max_dimensions();

    // +1 because initial position is (0, 0)
    let mut grid = Grid::new(len_x as usize + 1, len_y as usize + 1, 0u16);
    let ghost start = grid;
    proof {
        lemma_first_pass_fillable(lines@, &start);
        lemma_fillable_is_updatable(&start, lines@, false);
    }
    let count_overlaps_straight = overlap_lines(&mut grid, lines, LinePattern::Straight);
    let ghost middle = grid;
    proof {
        lemma_updated_is_filled(&start, &middle, lines@, false);
        lemma_second_pass_fillable(lines@, &start, &middle);
        lemma_fillable_is_updatable(&middle, lines@, true);
        lemma_field(lines@, &start, &middle, false);
    }
    let count_overlaps_all = overlap_lines(&mut grid, lines, LinePattern::Diagonal);
    proof {
        lemma_updated_is_filled(&middle, &grid, lines@, true);
        lemma_passes_accumulate(&start, &middle, &grid, lines@);
        lemma_field(lines@, &start, &grid, true);
    }
    (count_overlaps_straight, count_overlaps_all)
}

} // verus!
