//! A two-dimensional array using a flat internal representation.
//!
//! This is a row major implementation: consecutive elements across the x
//! dimension are next to each other, whereas columns are strided.
//!
//! `x` says which column a value is in and `y` which row, so the cell at
//! `(5, 0)` is the sixth element of the first row and the cell at `(1, 5)` is
//! the second element of the sixth row.
//!
//! The mathematical model of a grid is the sequence of its cells in row-major
//! order together with its two dimensions; the cell at `(x, y)` is element
//! `len_x * y + x` of that sequence.

use core::ops::Add;
use vstd::prelude::*;
use vstd::slice::slice_subrange;
use vstd::std_specs::iter::IteratorSpec;
use vstd::std_specs::ops::AddSpec;

verus! {

/// A dense grid of `len_x` columns and `len_y` rows.
#[derive(Debug, PartialEq, Eq, Clone)]
pub struct Grid<T> {
    flat: Vec<T>,
    len_x: usize,
    len_y: usize,
}

/// The position of the cell `(x, y)` in the row-major sequence of a grid that
/// is `len_x` columns wide.
pub open spec fn offset(len_x: int, x: int, y: int) -> int {
    len_x * y + x
}

/// Every cell inside a `len_x` by `len_y` grid has a position inside the
/// row-major sequence of `len_x * len_y` cells.
pub proof fn lemma_offset_in_range(len_x: int, len_y: int, x: int, y: int)
    requires
        0 <= x < len_x,
        0 <= y < len_y,
    ensures
        0 <= offset(len_x, x, y) < len_x * len_y,
        len_x * y + len_x <= len_x * len_y,
{
    assert(0 <= len_x * y) by (nonlinear_arith)
        requires
            0 <= len_x,
            0 <= y,
    ;
    assert(len_x * y + len_x <= len_x * len_y) by (nonlinear_arith)
        requires
            0 <= len_x,
            y + 1 <= len_y,
    ;
}

/// Two cells of one grid share a position only if they are the same cell.
pub proof fn lemma_offset_injective(len_x: int, x0: int, y0: int, x1: int, y1: int)
    requires
        0 <= x0 < len_x,
        0 <= x1 < len_x,
        offset(len_x, x0, y0) == offset(len_x, x1, y1),
    ensures
        x0 == x1,
        y0 == y1,
{
    assert(y0 == y1) by (nonlinear_arith)
        requires
            0 <= x0 < len_x,
            0 <= x1 < len_x,
            len_x * y0 + x0 == len_x * y1 + x1,
    ;
}

/// Every position of the row-major sequence belongs to exactly one cell: the
/// one in column `i % len_x` of row `i / len_x`.
pub proof fn lemma_offset_inverse(len_x: int, len_y: int, i: int)
    requires
        0 <= i < len_x * len_y,
        0 <= len_x,
        0 <= len_y,
    ensures
        0 <= i % len_x < len_x,
        0 <= i / len_x < len_y,
        offset(len_x, i % len_x, i / len_x) == i,
{
    assert(len_x > 0) by (nonlinear_arith)
        requires
            0 <= i < len_x * len_y,
            0 <= len_x,
            0 <= len_y,
    ;
    vstd::arithmetic::div_mod::lemma_fundamental_div_mod(i, len_x);
    vstd::arithmetic::div_mod::lemma_mod_pos_bound(i, len_x);
    let q = i / len_x;
    assert(0 <= q < len_y) by (nonlinear_arith)
        requires
            0 <= i < len_x * len_y,
            0 < len_x,
            i == len_x * q + i % len_x,
            0 <= i % len_x < len_x,
    ;
}

/// The number of rows of the bordered grid that holds `items` values in rows
/// of `len_x`: the rows that the values fill or begin, the border above and
/// below, and one more row of border where the values end with a full row.
pub open spec fn bordered_rows(len_x: int, items: int) -> int {
    if len_x == 0 {
        3
    } else {
        items / len_x + 3
    }
}

/// The value at `(x, y)` of the bordered grid that holds `items` in rows of
/// `len_x`: the items fill the columns 1 to `len_x` row by row from row 1 on,
/// and everything around and after them is `border`.
pub open spec fn bordered_cell<T>(items: Seq<T>, len_x: int, border: T, x: int, y: int) -> T {
    let k = (y - 1) * len_x + (x - 1);
    if 1 <= x <= len_x && 1 <= y && 0 <= k < items.len() {
        items[k]
    } else {
        border
    }
}

/// Every value laid out so far is the one that the bordered grid holds at its
/// position.
spec fn laid_out<T>(flat: Seq<T>, items: Seq<T>, len_x: int, border: T) -> bool {
    forall|x: int, y: int|
        0 <= x < len_x + 2 && 0 <= y && #[trigger] offset(len_x + 2, x, y) < flat.len()
            ==> flat[offset(len_x + 2, x, y)] == bordered_cell(items, len_x, border, x, y)
}

/// Laying out the right value at the next position keeps the layout right.
proof fn lemma_lay_out<T>(flat: Seq<T>, items: Seq<T>, len_x: int, border: T, x: int, y: int, v: T)
    requires
        0 <= len_x,
        laid_out(flat, items, len_x, border),
        0 <= x < len_x + 2,
        0 <= y,
        flat.len() == offset(len_x + 2, x, y),
        v == bordered_cell(items, len_x, border, x, y),
    ensures
        laid_out(flat.push(v), items, len_x, border),
{
    assert forall|x2: int, y2: int|
        0 <= x2 < len_x + 2 && 0 <= y2 && #[trigger] offset(len_x + 2, x2, y2) < flat.push(
            v,
        ).len() implies flat.push(v)[offset(len_x + 2, x2, y2)] == bordered_cell(
        items,
        len_x,
        border,
        x2,
        y2,
    ) by {
        if offset(len_x + 2, x2, y2) == flat.len() {
            lemma_offset_injective(len_x + 2, x2, y2, x, y);
        }
    }
}

impl<T> View for Grid<T> {
    type V = Seq<T>;

    /// The cells in row-major order.
    closed spec fn view(&self) -> Seq<T> {
        self.flat@
    }
}

impl<T> Grid<T> {
    /// The number of columns, as contracts see it.
    pub closed spec fn spec_len_x(&self) -> usize {
        self.len_x
    }

    /// The number of rows, as contracts see it.
    pub closed spec fn spec_len_y(&self) -> usize {
        self.len_y
    }

    /// The grid holds exactly `len_x * len_y` cells.
    pub open spec fn wf(&self) -> bool {
        self@.len() == self.len_x() * self.len_y()
    }

    /// Whether `(x, y)` names a cell of the grid.
    pub open spec fn in_bounds(&self, x: int, y: int) -> bool {
        0 <= x < self.len_x() && 0 <= y < self.len_y()
    }

    /// The value of the cell at `(x, y)`.
    pub open spec fn cell(&self, x: int, y: int) -> T {
        self@[offset(self.len_x() as int, x, y)]
    }

    /// The cells of row `y`, from column 0 upward.
    pub open spec fn row(&self, y: int) -> Seq<T> {
        self@.subrange(self.len_x() * y, self.len_x() * y + self.len_x())
    }

    /// Whether `other` has the dimensions of this grid.
    pub open spec fn same_shape(&self, other: &Grid<T>) -> bool {
        self.len_x() == other.len_x() && self.len_y() == other.len_y()
    }

    /// The value that wrapping access finds for `(x, y)`: that of the cell at
    /// `(x mod len_x, y mod len_y)`.
    pub open spec fn wrapped(&self, x: int, y: int) -> T {
        self.cell(x % self.len_x() as int, y % self.len_y() as int)
    }

    /// The cells that are not on the border, row after row: those of the
    /// columns 1 to `len_x - 2` in the rows 1 to `len_y - 2`.
    pub open spec fn inner(&self) -> Seq<T> {
        let width = self.len_x() - 2;
        let height = self.len_y() - 2;
        if width <= 0 || height <= 0 {
            Seq::empty()
        } else {
            Seq::new((width * height) as nat, |k: int| self.cell(1 + k % width, 1 + k / width))
        }
    }

    /// A cell written and then read back holds the value written, and every
    /// other cell holds what it held before.
    pub proof fn lemma_read_back(&self, after: &Grid<T>, x: int, y: int, value: T)
        requires
            self.wf(),
            self.in_bounds(x, y),
            after.same_shape(self),
            after@ == self@.update(offset(self.len_x() as int, x, y), value),
        ensures
            after.wf(),
            after.cell(x, y) == value,
            forall|x2: int, y2: int|
                self.in_bounds(x2, y2) && (x2 != x || y2 != y) ==> #[trigger] after.cell(x2, y2)
                    == self.cell(x2, y2),
    {
        let len_x = self.len_x() as int;
        lemma_offset_in_range(len_x, self.len_y() as int, x, y);
        assert forall|x2: int, y2: int|
            self.in_bounds(x2, y2) && (x2 != x || y2 != y) implies #[trigger] after.cell(x2, y2)
            == self.cell(x2, y2) by {
            lemma_offset_in_range(len_x, self.len_y() as int, x2, y2);
            if offset(len_x, x2, y2) == offset(len_x, x, y) {
                lemma_offset_injective(len_x, x2, y2, x, y);
            }
        }
    }

    /// Wrapping access one full width or height beyond a cell finds that cell
    /// again; inside the grid it finds the cell itself.
    pub proof fn lemma_wrap(&self, x: int, y: int)
        requires
            self.in_bounds(x, y),
        ensures
            self.wrapped(x, y) == self.cell(x, y),
            self.wrapped(self.len_x() + x, y) == self.cell(x, y),
            self.wrapped(x, self.len_y() + y) == self.cell(x, y),
            self.wrapped(self.len_x() + x, self.len_y() + y) == self.cell(x, y),
    {
        let len_x = self.len_x() as int;
        let len_y = self.len_y() as int;
        vstd::arithmetic::div_mod::lemma_small_mod(x as nat, len_x as nat);
        vstd::arithmetic::div_mod::lemma_small_mod(y as nat, len_y as nat);
        vstd::arithmetic::div_mod::lemma_mod_add_multiples_vanish(x, len_x);
        vstd::arithmetic::div_mod::lemma_mod_add_multiples_vanish(y, len_y);
    }

    /// A grid never holds more cells than an index can address.
    pub proof fn lemma_size_fits(&self)
        ensures
            self@.len() <= usize::MAX,
    {
        assert(self.flat.len() == self.flat@.len());
    }

    /// The number of columns.
    #[verifier::when_used_as_spec(spec_len_x)]
    pub fn len_x(&self) -> (n: usize)
        ensures
            n == self.len_x(),
    {
        self.len_x
    }

    /// The number of rows.
    #[verifier::when_used_as_spec(spec_len_y)]
    pub fn len_y(&self) -> (n: usize)
        ensures
            n == self.len_y(),
    {
        self.len_y
    }
}

impl<T: Clone> Grid<T> {
    /// Creates a new grid with all the elements having the `init`ial value.
    pub fn new(len_x: usize, len_y: usize, init: T) -> (grid: Grid<T>)
        requires
            len_x * len_y <= usize::MAX,
        ensures
            grid.wf(),
            grid.len_x() == len_x,
            grid.len_y() == len_y,
            forall|i: int| 0 <= i < grid@.len() ==> cloned(init, #[trigger] grid@[i]),
    {
        Grid { flat: vec![init; len_x * len_y], len_x, len_y }
    }

    /// A grid as `new` makes it has `len_x * len_y` cells, and each cell,
    /// whichever way it is reached, is a clone of the initial value. Where
    /// the clones of that value are equal to it, the grid is that value
    /// `len_x * len_y` times.
    pub proof fn lemma_new(&self, len_x: usize, len_y: usize, init: T)
        requires
            self.wf(),
            self.len_x() == len_x,
            self.len_y() == len_y,
            forall|i: int| 0 <= i < self@.len() ==> cloned(init, #[trigger] self@[i]),
        ensures
            self@.len() == len_x * len_y,
            forall|x: int, y: int|
                self.in_bounds(x, y) ==> cloned(init, #[trigger] self.cell(x, y)),
            (forall|clone: T| #[trigger] cloned(init, clone) ==> clone == init) ==> self@
                == Seq::new((len_x * len_y) as nat, |i: int| init),
    {
        assert forall|x: int, y: int| self.in_bounds(x, y) implies cloned(
            init,
            #[trigger] self.cell(x, y),
        ) by {
            lemma_offset_in_range(len_x as int, len_y as int, x, y);
        }
        if forall|clone: T| #[trigger] cloned(init, clone) ==> clone == init {
            assert(self@ =~= Seq::new((len_x * len_y) as nat, |i: int| init));
        }
    }

    /// Builds a grid from the first `len_x * len_y` elements of `v`, which
    /// must hold at least that many. Extra elements are discarded.
    pub fn from_vec(len_x: usize, len_y: usize, v: Vec<T>) -> (grid: Grid<T>)
        requires
            len_x * len_y <= v@.len(),
        ensures
            grid.wf(),
            grid.len_x() == len_x,
            grid.len_y() == len_y,
            grid@ == v@.take(len_x * len_y),
    {
        let mut v = v;
        assert(len_x * len_y <= v.len());
        v.truncate(len_x * len_y);
        Grid { flat: v, len_x, len_y }
    }

    /// Builds a grid of `len_x + 2` columns that holds `items` row by row,
    /// `len_x` to a row, inside a border: a row of `border` above and below
    /// and a column of it on either side. If the items do not complete the
    /// last line, the remaining elements are completed with the border value;
    /// if they do, one more row of border follows.
    pub fn new_bordered_with_x(len_x: usize, border: T, items: Vec<T>) -> (grid: Grid<T>) where
        T: Copy,

        requires
            len_x > 0 || items@.len() == 0,
            (len_x + 2) * bordered_rows(len_x as int, items@.len() as int) <= usize::MAX,
        ensures
            grid.wf(),
            grid.len_x() == len_x + 2,
            grid.len_y() == bordered_rows(len_x as int, items@.len() as int),
            forall|x: int, y: int|
                grid.in_bounds(x, y) ==> #[trigger] grid.cell(x, y) == bordered_cell(
                    items@,
                    len_x as int,
                    border,
                    x,
                    y,
                ),
    {
        let n = items.len();
        let ghost rows = bordered_rows(len_x as int, n as int);
        proof {
            if len_x > 0 {
                vstd::arithmetic::div_mod::lemma_div_pos_is_pos(n as int, len_x as int);
            }
            assert((len_x + 2) * 3 <= (len_x + 2) * rows) by (nonlinear_arith)
                requires
                    3 <= rows,
            ;
        }
        let len = len_x + 2;
        let mut flat = Vec::<T>::new();
        // upper border
        let mut x: usize = 0;
        while x < len
            invariant
                len == len_x + 2,
                x <= len,
                flat@.len() == x,
                laid_out(flat@, items@, len_x as int, border),
            decreases len - x,
        {
            proof {
                lemma_lay_out(flat@, items@, len_x as int, border, x as int, 0, border);
            }
            flat.push(border);
            x += 1;
        }
        let mut taken: usize = 0;
        let ghost mut full: int = 0;
        let ghost mut tail: int = 0;
        assert(len * (1 + 0) == len) by (nonlinear_arith);
        assert(0 * len_x == 0) by (nonlinear_arith);
        while taken < n
            invariant
                n == items@.len(),
                len == len_x + 2,
                len_x > 0 || n == 0,
                len_x == 0 ==> full == 0,
                taken <= n,
                0 <= full,
                flat@.len() == len * (1 + full) + tail,
                tail == 0 ==> taken == full * len_x,
                tail != 0 ==> taken == n && tail == n - full * len_x + 2 && 0 < n - full * len_x
                    < len_x,
                laid_out(flat@, items@, len_x as int, border),
            decreases n - taken,
        {
            proof {
                assert(tail == 0);
                assert(len * (1 + full) + tail == offset(len as int, 0, 1 + full));
                lemma_lay_out(flat@, items@, len_x as int, border, 0, 1 + full, border);
            }
            flat.push(border);  // left border
            let mut j: usize = 0;
            while j < len_x && taken < n
                invariant
                    n == items@.len(),
                    len == len_x + 2,
                    j <= len_x,
                    taken <= n,
                    0 <= full,
                    taken == full * len_x + j,
                    flat@.len() == len * (1 + full) + 1 + j,
                    laid_out(flat@, items@, len_x as int, border),
                decreases n - taken,
            {
                proof {
                    assert(len * (1 + full) + 1 + j == offset(len as int, 1 + j, 1 + full));
                    assert((1 + full - 1) * len_x + (1 + j - 1) == taken) by (nonlinear_arith)
                        requires
                            taken == full * len_x + j,
                    ;
                    lemma_lay_out(
                        flat@,
                        items@,
                        len_x as int,
                        border,
                        1 + j,
                        1 + full,
                        items@[taken as int],
                    );
                }
                flat.push(items[taken]);
                taken += 1;
                j += 1;
            }
            proof {
                assert(len * (1 + full) + 1 + j == offset(len as int, 1 + j, 1 + full));
                assert((1 + full - 1) * len_x + (1 + j - 1) == taken) by (nonlinear_arith)
                    requires
                        taken == full * len_x + j,
                ;
                lemma_lay_out(flat@, items@, len_x as int, border, 1 + j, 1 + full, border);
            }
            flat.push(border);  // right border
            proof {
                if j == len_x {
                    assert(len * (1 + full) + 1 + j + 1 == len * (1 + (full + 1))) by (nonlinear_arith)
                        requires
                            len == len_x + 2,
                            j == len_x,
                    ;
                    assert(taken == (full + 1) * len_x) by (nonlinear_arith)
                        requires
                            taken == full * len_x + j,
                            j == len_x,
                    ;
                    full = full + 1;
                } else {
                    tail = j + 2;
                }
            }
        }
        // complete last line and add lower border
        proof {
            assert(0 <= len * (1 + full)) by (nonlinear_arith)
                requires
                    0 <= len,
                    0 <= full,
            ;
            assert(flat@.len() == (1 + full) * len + tail) by (nonlinear_arith)
                requires
                    flat@.len() == len * (1 + full) + tail,
            ;
            vstd::arithmetic::div_mod::lemma_fundamental_div_mod_converse(
                flat@.len() as int,
                len as int,
                1 + full,
                tail,
            );
        }
        let fill = 2 * len - flat.len() % len;
        let ghost start = flat@.len();
        let mut f: usize = 0;
        while f < fill
            invariant
                len == len_x + 2,
                f <= fill,
                fill == 2 * len - tail,
                0 <= tail < len,
                0 <= full,
                len_x == 0 ==> full == 0,
                start == len * (1 + full) + tail,
                flat@.len() == start + f,
                taken == n,
                n == items@.len(),
                tail == 0 ==> n == full * len_x,
                tail != 0 ==> tail == n - full * len_x + 2 && 0 < n - full * len_x < len_x,
                laid_out(flat@, items@, len_x as int, border),
            decreases fill - f,
        {
            proof {
                let p = tail + f;
                let x = if p < len {
                    p
                } else if p < 2 * len {
                    p - len
                } else {
                    p - 2 * len
                };
                let y = if p < len {
                    1 + full
                } else if p < 2 * len {
                    2 + full
                } else {
                    3 + full
                };
                assert(flat@.len() == offset(len as int, x, y)) by (nonlinear_arith)
                    requires
                        flat@.len() == len * (1 + full) + p,
                        x == if p < len {
                            p
                        } else if p < 2 * len {
                            p - len
                        } else {
                            p - 2 * len
                        },
                        y == if p < len {
                            1 + full
                        } else if p < 2 * len {
                            2 + full
                        } else {
                            3 + full
                        },
                ;
                assert(bordered_cell(items@, len_x as int, border, x, y) == border) by {
                    if 1 <= x <= len_x {
                        assert((y - 1) * len_x + (x - 1) >= n) by (nonlinear_arith)
                            requires
                                1 <= x <= len_x,
                                0 <= full,
                                y >= 2 + full || (y == 1 + full && (tail == 0 || x >= tail)),
                                tail == 0 ==> n == full * len_x,
                                tail != 0 ==> tail == n - full * len_x + 2,
                                n - full * len_x < len_x,
                        ;
                    }
                }
                lemma_lay_out(flat@, items@, len_x as int, border, x, y, border);
            }
            flat.push(border);
            f += 1;
        }
        proof {
            assert(flat@.len() == (3 + full) * len) by (nonlinear_arith)
                requires
                    flat@.len() == len * (1 + full) + tail + (2 * len - tail),
            ;
            vstd::arithmetic::div_mod::lemma_fundamental_div_mod_converse(
                flat@.len() as int,
                len as int,
                3 + full,
                0,
            );
            if len_x > 0 {
                assert(n == full * len_x + (n - full * len_x));
                vstd::arithmetic::div_mod::lemma_fundamental_div_mod_converse(
                    n as int,
                    len_x as int,
                    full,
                    n - full * len_x,
                );
            }
            assert(len * (3 + full) == (3 + full) * len) by (nonlinear_arith);
        }
        let ghost cells = flat@;
        let len_y = flat.len() / len;
        let grid = Grid::from_vec(len, len_y, flat);
        proof {
            assert(grid@ =~= cells);
            assert forall|x: int, y: int| grid.in_bounds(x, y) implies #[trigger] grid.cell(x, y)
                == bordered_cell(items@, len_x as int, border, x, y) by {
                lemma_offset_in_range(len as int, len_y as int, x, y);
                assert(offset(len_x + 2, x, y) < cells.len());
            }
        }
        grid
    }
}

impl<T> Grid<T> {
    /// Returns the value at position `(x, y)`.
    pub fn get(&self, x: usize, y: usize) -> (value: &T)
        requires
            self.wf(),
            self.in_bounds(x as int, y as int),
        ensures
            *value == self.cell(x as int, y as int),
    {
        &self.flat[self.index(x, y)]
    }

    /// Returns the cell at position `(x, y)` for writing. What the caller
    /// leaves in it is the cell's new value; no other cell changes.
    pub fn get_mut(&mut self, x: usize, y: usize) -> (value: &mut T)
        requires
            old(self).wf(),
            old(self).in_bounds(x as int, y as int),
        ensures
            *value == old(self).cell(x as int, y as int),
            final(self)@ == old(self)@.update(
                offset(old(self).len_x() as int, x as int, y as int),
                *final(value),
            ),
            final(self).same_shape(old(self)),
            final(self).wf(),
    {
        let i = self.index(x, y);
        &mut self.flat[i]
    }

    /// Stores `value` in the cell at position `(x, y)`.
    pub fn update_at(&mut self, x: usize, y: usize, value: T)
        requires
            old(self).wf(),
            old(self).in_bounds(x as int, y as int),
        ensures
            final(self)@ == old(self)@.update(
                offset(old(self).len_x() as int, x as int, y as int),
                value,
            ),
            final(self).same_shape(old(self)),
            final(self).wf(),
    {
        let i = self.index(x, y);
        self.flat[i] = value;
    }

    /// Returns the value at position `(x, y)`, wrapping around on both axes:
    /// in a 10 by 10 grid, `(15, 12)` names the cell at `(5, 2)`.
    pub fn wrap(&self, x: usize, y: usize) -> (value: &T)
        requires
            self.wf(),
            self.len_x() > 0,
            self.len_y() > 0,
        ensures
            *value == self.wrapped(x as int, y as int),
    {
        let nx = x % self.len_x;
        let ny = y % self.len_y;
        self.get(nx, ny)
    }

    /// Returns the value at position `(x, y)`, wrapping around on the x axis
    /// only.
    pub fn wrap_x(&self, x: usize, y: usize) -> (value: &T)
        requires
            self.wf(),
            self.len_x() > 0,
            y < self.len_y(),
        ensures
            *value == self.cell(x as int % self.len_x() as int, y as int),
    {
        let nx = x % self.len_x;
        self.get(nx, y)
    }

    /// Returns the value at position `(x, y)`, wrapping around on the y axis
    /// only.
    pub fn wrap_y(&self, x: usize, y: usize) -> (value: &T)
        requires
            self.wf(),
            self.len_y() > 0,
            x < self.len_x(),
        ensures
            *value == self.cell(x as int, y as int % self.len_y() as int),
    {
        let ny = y % self.len_y;
        self.get(x, ny)
    }

    /// An iterator over all cells in row-major order.
    pub fn iter(&self) -> (cells: core::slice::Iter<'_, T>)
        ensures
            vstd::std_specs::slice::into_iter_elts(cells) == self@,
            IteratorSpec::decrease(&cells) is Some,
            IteratorSpec::initial_value_relation(&cells, &cells),
    {
        self.flat.iter()
    }

    /// Returns an array slice for a line of the grid: the cells of row `y`.
    pub fn line(&self, y: usize) -> (cells: &[T])
        requires
            self.wf(),
            self.len_x() > 0,
            y < self.len_y(),
        ensures
            cells@ == self.row(y as int),
    {
        let first = self.index(0, y);
        let last = self.index(self.len_x - 1, y);
        proof {
            self.lemma_size_fits();
        }
        slice_subrange(self.flat.as_slice(), first, last + 1)
    }

    /// Returns an array slice for a line of the grid excluding the side
    /// borders: row `y` without its first and last `border_size` cells.
    pub fn line_no_border(&self, y: usize, border_size: usize) -> (cells: &[T])
        requires
            self.wf(),
            y < self.len_y(),
            border_size < self.len_x(),
            2 * border_size <= self.len_x(),
        ensures
            cells@ == self.row(y as int).subrange(
                border_size as int,
                self.len_x() - border_size,
            ),
    {
        let first = self.index(border_size, y);
        let last = self.index(self.len_x - border_size - 1, y);
        proof {
            self.lemma_size_fits();
            lemma_offset_in_range(self.len_x as int, self.len_y as int, 0, y as int);
        }
        let cells = slice_subrange(self.flat.as_slice(), first, last + 1);
        assert(cells@ =~= self.row(y as int).subrange(
            border_size as int,
            self.len_x() - border_size,
        ));
        cells
    }

    /// Returns the values of the grid excluding those at the borders, in
    /// row-major order.
    pub fn inner_grid_iter(&self) -> (cells: Vec<&T>)
        requires
            self.wf(),
            self.len_y() >= 1,
            self.len_y() > 2 ==> self.len_x() >= 2,
        ensures
            cells@.len() == self.inner().len(),
            forall|k: int| 0 <= k < cells@.len() ==> *(#[trigger] cells@[k]) == self.inner()[k],
    {
        let mut cells = Vec::<&T>::new();
        let mut y: usize = 1;
        let ghost width = self.len_x() - 2;
        while y < self.len_y - 1
            invariant
                self.wf(),
                self.len_y() >= 1,
                self.len_y() > 2 ==> self.len_x() >= 2,
                width == self.len_x() - 2,
                1 <= y,
                self.len_y() > 2 ==> y <= self.len_y() - 1,
                y > 1 ==> self.len_y() > 2,
                cells@.len() == (y - 1) * width,
                forall|k: int|
                    0 <= k < cells@.len() ==> *(#[trigger] cells@[k]) == self.cell(
                        1 + k % width,
                        1 + k / width,
                    ),
            decreases self.len_y() - y,
        {
            let line = self.line_no_border(y, 1);
            proof {
                lemma_offset_in_range(self.len_x() as int, self.len_y() as int, 0, y as int);
                assert(self.row(y as int).len() == self.len_x());
            }
            let mut x: usize = 0;
            while x < line.len()
                invariant
                    self.wf(),
                    width == self.len_x() - 2,
                    0 <= width,
                    1 <= y < self.len_y(),
                    line@ == self.row(y as int).subrange(1, self.len_x() - 1),
                    x <= line@.len(),
                    line@.len() == width,
                    cells@.len() == (y - 1) * width + x,
                    forall|k: int|
                        0 <= k < cells@.len() ==> *(#[trigger] cells@[k]) == self.cell(
                            1 + k % width,
                            1 + k / width,
                        ),
                decreases line@.len() - x,
            {
                proof {
                    let k = cells@.len() as int;
                    assert(k == (y - 1) * width + x);
                    vstd::arithmetic::div_mod::lemma_fundamental_div_mod_converse(
                        k,
                        width,
                        y - 1,
                        x as int,
                    );
                    lemma_offset_in_range(self.len_x() as int, self.len_y() as int, 0, y as int);
                    assert(line@[x as int] == self.cell(1 + x, y as int));
                }
                cells.push(&line[x]);
                x += 1;
            }
            proof {
                assert((y - 1) * width + width == (y + 1 - 1) * width) by (nonlinear_arith);
            }
            y += 1;
        }
        proof {
            let height = self.len_y() - 2;
            if width <= 0 || height <= 0 {
                assert(cells@.len() == 0) by (nonlinear_arith)
                    requires
                        cells@.len() == (y - 1) * width,
                        width <= 0 || y == 1,
                        0 <= width || y == 1,
                ;
            } else {
                assert((y - 1) * width == width * height) by (nonlinear_arith)
                    requires
                        y - 1 == height,
                ;
            }
        }
        cells
    }

    /// Returns the total size of the array (`len_x * len_y`).
    pub fn size(&self) -> (n: usize)
        ensures
            n == self@.len(),
            self.wf() ==> n == self.len_x() * self.len_y(),
    {
        self.flat.len()
    }

    /// Returns the index for accessing the `flat` array from the coordinates
    /// `x` and `y`.
    fn index(&self, x: usize, y: usize) -> (i: usize)
        requires
            self.wf(),
            self.in_bounds(x as int, y as int),
        ensures
            i == offset(self.len_x() as int, x as int, y as int),
            i < self@.len(),
    {
        proof {
            lemma_offset_in_range(self.len_x as int, self.len_y as int, x as int, y as int);
            assert(self.flat.len() == self.len_x * self.len_y);
            assert(0 <= self.len_x * y) by (nonlinear_arith);
        }
        self.len_x * y + x
    }
}

impl<T: Copy + Add<Output = T>> Grid<T> {
    /// Adds `value` to the cell at position `(x, y)`: the cell is read, the
    /// sum is formed and written back. No other cell changes.
    pub fn increment_by(&mut self, x: usize, y: usize, value: T)
        requires
            old(self).wf(),
            old(self).in_bounds(x as int, y as int),
            old(self).cell(x as int, y as int).add_req(value),
        ensures
            T::obeys_add_spec() ==> final(self)@ == old(self)@.update(
                offset(old(self).len_x() as int, x as int, y as int),
                old(self).cell(x as int, y as int).add_spec(value),
            ),
            final(self)@.len() == old(self)@.len(),
            forall|i: int|
                0 <= i < old(self)@.len() && i != offset(
                    old(self).len_x() as int,
                    x as int,
                    y as int,
                ) ==> final(self)@[i] == old(self)@[i],
            final(self).same_shape(old(self)),
            final(self).wf(),
    {
        let i = self.index(x, y);
        let sum = self.flat[i] + value;
        self.flat[i] = sum;
    }
}

} // verus!
