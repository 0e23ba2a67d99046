use vstd::arithmetic::div_mod::{lemma_fundamental_div_mod, lemma_fundamental_div_mod_converse};
use vstd::prelude::*;

verus! {

/// The mathematical value of a buffer: its dimensions and its cells in
/// row-major order.
pub struct Grid<T> {
    pub width: nat,
    pub height: nat,
    pub cells: Seq<T>,
}

impl<T> Grid<T> {
    /// There is exactly one cell for each coordinate pair.
    pub open spec fn wf(self) -> bool {
        self.cells.len() == self.width * self.height
    }

    /// Whether `(x, y)` names a cell of the grid.
    pub open spec fn contains(self, x: int, y: int) -> bool {
        0 <= x < self.width && 0 <= y < self.height
    }

    /// The cell at column `x` of row `y`.
    pub open spec fn at(self, x: int, y: int) -> T {
        self.cells[y * self.width + x]
    }

    /// The grid with the cell at `(x, y)` replaced by `value`.
    pub open spec fn set(self, x: int, y: int, value: T) -> Grid<T> {
        Grid { cells: self.cells.update(y * self.width + x, value), ..self }
    }

    /// The grid of the given dimensions whose every cell holds `value`.
    pub open spec fn filled(width: nat, height: nat, value: T) -> Grid<T> {
        Grid { width, height, cells: Seq::new(width * height, |i: int| value) }
    }

    /// Every cell of a filled grid holds the value it was filled with.
    pub proof fn lemma_filled_at(width: nat, height: nat, value: T, x: int, y: int)
        requires
            0 <= x < width,
            0 <= y < height,
        ensures
            Grid::filled(width, height, value).wf(),
            Grid::filled(width, height, value).at(x, y) == value,
    {
        lemma_index_in_bounds(width as int, height as int, x, y);
    }

    /// The grid of the given dimensions that agrees with this one wherever
    /// both have a cell, and holds `fill` in every other cell.
    pub open spec fn resized(self, width: nat, height: nat, fill: T) -> Grid<T> {
        Grid {
            width,
            height,
            cells: Seq::new(
                width * height,
                |i: int|
                    if self.contains(i % (width as int), i / (width as int)) {
                        self.at(i % (width as int), i / (width as int))
                    } else {
                        fill
                    },
            ),
        }
    }

    /// Resizing keeps the overlap: a cell of the resized grid holds what the
    /// cell at the same coordinates held before, where there was one, and
    /// the fill value everywhere else.
    pub proof fn lemma_resized_at(self, width: nat, height: nat, fill: T, x: int, y: int)
        requires
            0 <= x < width,
            0 <= y < height,
        ensures
            self.resized(width, height, fill).wf(),
            self.resized(width, height, fill).at(x, y) == if self.contains(x, y) {
                self.at(x, y)
            } else {
                fill
            },
    {
        lemma_index_in_bounds(width as int, height as int, x, y);
        lemma_fundamental_div_mod_converse(y * width + x, width as int, y, x);
    }

    /// Reading after a write: the written cell holds the written value,
    /// and every other cell holds what it held before.
    pub proof fn lemma_set_at(self, x: int, y: int, value: T, cx: int, cy: int)
        requires
            self.wf(),
            self.contains(x, y),
            self.contains(cx, cy),
        ensures
            self.set(x, y, value).wf(),
            self.set(x, y, value).at(cx, cy) == if cx == x && cy == y {
                value
            } else {
                self.at(cx, cy)
            },
    {
        lemma_index_in_bounds(self.width as int, self.height as int, x, y);
        lemma_index_in_bounds(self.width as int, self.height as int, cx, cy);
        if cy * self.width + cx == y * self.width + x {
            lemma_index_injective(self.width as int, cx, cy, x, y);
        }
    }

    /// The grid after `value` has been written to the first `count` cells
    /// of a region, taken in row-major order.
    pub open spec fn painted(self, origin: (int, int), extent: (int, int), value: T, count: nat) -> Grid<
        T,
    >
        decreases count,
    {
        if count == 0 {
            self
        } else {
            let cell = region_cell(origin, extent, count - 1);
            self.painted(origin, extent, value, (count - 1) as nat).set(cell.0, cell.1, value)
        }
    }

    /// Writing to cells of a region keeps the grid well-formed and its
    /// dimensions as they were.
    pub proof fn lemma_painted_wf(self, origin: (int, int), extent: (int, int), value: T, count: nat)
        requires
            self.wf(),
            self.contains_region(origin, extent),
            count <= extent.0 * extent.1,
        ensures
            self.painted(origin, extent, value, count).wf(),
            self.painted(origin, extent, value, count).width == self.width,
            self.painted(origin, extent, value, count).height == self.height,
        decreases count,
    {
        if count > 0 {
            let cell = region_cell(origin, extent, count - 1);
            self.lemma_painted_wf(origin, extent, value, (count - 1) as nat);
            lemma_region_cell_rank(origin, extent, count - 1);
            lemma_index_in_bounds(self.width as int, self.height as int, cell.0, cell.1);
        }
    }

    /// Writing a value to the cells that a region cursor yields changes
    /// exactly the cells of the region that were yielded so far: each of
    /// them holds the value, and every other cell of the grid holds what it
    /// held before.
    pub proof fn lemma_painted_at(
        self,
        origin: (int, int),
        extent: (int, int),
        value: T,
        count: nat,
        x: int,
        y: int,
    )
        requires
            self.wf(),
            self.contains_region(origin, extent),
            count <= extent.0 * extent.1,
            self.contains(x, y),
        ensures
            self.painted(origin, extent, value, count).at(x, y) == if in_region(origin, extent, x, y)
                && region_rank(origin, extent.0, x, y) < count {
                value
            } else {
                self.at(x, y)
            },
        decreases count,
    {
        if in_region(origin, extent, x, y) {
            lemma_region_rank_cell(origin, extent, x, y);
        }
        if count > 0 {
            let earlier = self.painted(origin, extent, value, (count - 1) as nat);
            let cell = region_cell(origin, extent, count - 1);
            self.lemma_painted_at(origin, extent, value, (count - 1) as nat, x, y);
            self.lemma_painted_wf(origin, extent, value, (count - 1) as nat);
            lemma_region_cell_rank(origin, extent, count - 1);
            earlier.lemma_set_at(cell.0, cell.1, value, x, y);
        }
    }

    /// Writing a value to every cell that a region cursor yields changes
    /// exactly the cells of the region: each of them holds the value, and
    /// every cell outside the region holds what it held before.
    pub proof fn lemma_painted_region(
        self,
        origin: (int, int),
        extent: (int, int),
        value: T,
        x: int,
        y: int,
    )
        requires
            self.wf(),
            self.contains_region(origin, extent),
            self.contains(x, y),
        ensures
            0 <= extent.0 * extent.1,
            self.painted(origin, extent, value, (extent.0 * extent.1) as nat).at(x, y)
                == if in_region(origin, extent, x, y) {
                value
            } else {
                self.at(x, y)
            },
    {
        assert(0 <= extent.0 * extent.1) by (nonlinear_arith)
            requires
                0 <= extent.0,
                0 <= extent.1,
        ;
        self.lemma_painted_at(origin, extent, value, (extent.0 * extent.1) as nat, x, y);
        if in_region(origin, extent, x, y) {
            lemma_region_rank_cell(origin, extent, x, y);
        }
    }

    /// A grid is determined by its dimensions and by the cell at each
    /// coordinate pair.
    pub proof fn lemma_determined_by_cells(self, other: Grid<T>)
        requires
            self.wf(),
            other.wf(),
            self.width == other.width,
            self.height == other.height,
            forall|x: int, y: int| self.contains(x, y) ==> self.at(x, y) == other.at(x, y),
        ensures
            self == other,
    {
        assert forall|i: int| 0 <= i < self.cells.len() implies self.cells[i] == other.cells[i] by {
            let extent = (self.width as int, self.height as int);
            lemma_region_cell_rank((0, 0), extent, i);
            let cell = region_cell((0, 0), extent, i);
            assert(self.contains(cell.0, cell.1));
            assert(self.at(cell.0, cell.1) == other.at(cell.0, cell.1));
        }
        assert(self.cells =~= other.cells);
    }

    /// Whether the rectangle with the given origin and extent lies inside
    /// the grid.
    pub open spec fn contains_region(self, origin: (int, int), extent: (int, int)) -> bool {
        &&& 0 <= origin.0 && 0 <= extent.0 && origin.0 + extent.0 <= self.width
        &&& 0 <= origin.1 && 0 <= extent.1 && origin.1 + extent.1 <= self.height
    }
}

/// A pair of machine integers as a pair of mathematical ones.
pub open spec fn point(p: (usize, usize)) -> (int, int) {
    (p.0 as int, p.1 as int)
}

/// The `k`-th cell of a region in row-major order: left to right within a
/// row, rows from top to bottom.
pub open spec fn region_cell(origin: (int, int), extent: (int, int), k: int) -> (int, int) {
    (origin.0 + k % extent.0, origin.1 + k / extent.0)
}

/// Whether `(x, y)` lies in the rectangle with the given origin and extent.
pub open spec fn in_region(origin: (int, int), extent: (int, int), x: int, y: int) -> bool {
    &&& origin.0 <= x < origin.0 + extent.0
    &&& origin.1 <= y < origin.1 + extent.1
}

/// The place of `(x, y)` in the row-major order of a region that starts at
/// `origin` and is `width` cells wide.
pub open spec fn region_rank(origin: (int, int), width: int, x: int, y: int) -> int {
    (y - origin.1) * width + (x - origin.0)
}

/// Row-major traversal visits only cells of the region: the `k`-th cell
/// lies in the region, and its place in the order is `k`.
pub proof fn lemma_region_cell_rank(origin: (int, int), extent: (int, int), k: int)
    requires
        0 <= extent.0,
        0 <= extent.1,
        0 <= k < extent.0 * extent.1,
    ensures
        in_region(origin, extent, region_cell(origin, extent, k).0, region_cell(origin, extent, k).1),
        region_rank(
            origin,
            extent.0,
            region_cell(origin, extent, k).0,
            region_cell(origin, extent, k).1,
        ) == k,
{
    let w = extent.0;
    let h = extent.1;
    assert(w > 0) by (nonlinear_arith)
        requires
            0 <= w,
            0 < w * h,
    ;
    lemma_fundamental_div_mod(k, w);
    assert(w * (k / w) == (k / w) * w) by (nonlinear_arith);
    assert(0 <= k % w < w);
    assert(0 <= k / w < h) by (nonlinear_arith)
        requires
            w > 0,
            0 <= k < w * h,
            k == (k / w) * w + k % w,
            0 <= k % w < w,
    ;
}

/// Row-major traversal visits every cell of the region exactly once: a cell
/// of the region has a place in the order, and is the cell visited at that
/// place.
pub proof fn lemma_region_rank_cell(origin: (int, int), extent: (int, int), x: int, y: int)
    requires
        in_region(origin, extent, x, y),
    ensures
        0 <= region_rank(origin, extent.0, x, y) < extent.0 * extent.1,
        region_cell(origin, extent, region_rank(origin, extent.0, x, y)) == (x, y),
{
    lemma_index_in_bounds(extent.0, extent.1, x - origin.0, y - origin.1);
    lemma_fundamental_div_mod_converse(
        region_rank(origin, extent.0, x, y),
        extent.0,
        y - origin.1,
        x - origin.0,
    );
}

/// Row-major order: of two cells of a region, the one visited first lies in
/// a row above the other's, or in the same row and to its left.
pub proof fn lemma_region_cells_ordered(origin: (int, int), extent: (int, int), i: int, j: int)
    requires
        0 <= extent.0,
        0 <= extent.1,
        0 <= i < j < extent.0 * extent.1,
    ensures
        region_cell(origin, extent, i).1 < region_cell(origin, extent, j).1 || (region_cell(
            origin,
            extent,
            i,
        ).1 == region_cell(origin, extent, j).1 && region_cell(origin, extent, i).0 < region_cell(
            origin,
            extent,
            j,
        ).0),
{
    lemma_region_cell_rank(origin, extent, i);
    lemma_region_cell_rank(origin, extent, j);
    let w = extent.0;
    let first = region_cell(origin, extent, i);
    let second = region_cell(origin, extent, j);
    let row_i = first.1 - origin.1;
    let row_j = second.1 - origin.1;
    let column_i = first.0 - origin.0;
    let column_j = second.0 - origin.0;
    assert(row_i <= row_j) by (nonlinear_arith)
        requires
            row_i * w + column_i < row_j * w + column_j,
            0 <= column_i < w,
            0 <= column_j < w,
    ;
}

/// A coordinate pair inside a grid has a row-major index inside its cells.
pub proof fn lemma_index_in_bounds(width: int, height: int, x: int, y: int)
    requires
        0 <= x < width,
        0 <= y < height,
    ensures
        0 <= y * width + x < width * height,
{
    assert(y * width >= 0) by (nonlinear_arith)
        requires
            y >= 0,
            width >= 0,
    ;
    assert((y + 1) * width <= height * width) by (nonlinear_arith)
        requires
            y + 1 <= height,
            width >= 0,
    ;
    assert((y + 1) * width == y * width + width) by (nonlinear_arith);
    assert(height * width == width * height) by (nonlinear_arith);
}

/// The row-major index determines the coordinate pair: two pairs with the
/// same index are the same pair.
pub proof fn lemma_index_injective(width: int, x1: int, y1: int, x2: int, y2: int)
    requires
        0 <= x1 < width,
        0 <= x2 < width,
        y1 * width + x1 == y2 * width + x2,
    ensures
        x1 == x2,
        y1 == y2,
{
    lemma_fundamental_div_mod_converse(y1 * width + x1, width, y1, x1);
    lemma_fundamental_div_mod_converse(y2 * width + x2, width, y2, x2);
}

/// A row-major pixel buffer of `width * height` cells.
pub struct Buffer<T> {
    /// The width of the buffer in pixels.
    width: usize,
    /// The height of the buffer in pixels.
    height: usize,
    /// The cells, row after row.
    inner: Vec<T>,
}

impl<T> View for Buffer<T> {
    type V = Grid<T>;

    closed spec fn view(&self) -> Grid<T> {
        Grid { width: self.width as nat, height: self.height as nat, cells: self.inner@ }
    }
}

impl<T: Copy> Buffer<T> {
    /// The storage holds one cell per coordinate pair.
    pub open spec fn wf(&self) -> bool {
        self@.wf()
    }

    /// The row-major index of a cell of a well-formed buffer lies inside its
    /// storage.
    proof fn lemma_cell_index(&self, x: int, y: int)
        requires
            self.wf(),
            self@.contains(x, y),
        ensures
            0 <= y * self.width <= y * self.width + x < self.inner@.len() <= usize::MAX,
            self@.at(x, y) == self.inner@[y * self.width + x],
    {
        lemma_index_in_bounds(self.width as int, self.height as int, x, y);
        assert(y * self.width >= 0) by (nonlinear_arith)
            requires
                y >= 0,
                self.width >= 0,
        ;
        assert(self.inner@.len() == self.inner.len());
    }

    /// Creates a buffer of the given dimensions with every cell set to
    /// `fill`.
    pub fn new(width: usize, height: usize, fill: T) -> (buffer: Self)
        requires
            width * height <= usize::MAX,
        ensures
            buffer.wf(),
            buffer@ == Grid::filled(width as nat, height as nat, fill),
            forall|x: int, y: int|
                buffer@.contains(x, y) ==> #[trigger] buffer@.at(x, y) == fill,
    {
        let len: usize = width * height;
        let mut inner: Vec<T> = Vec::with_capacity(len);
        let mut i: usize = 0;
        while i < len
            invariant
                i <= len,
                inner@.len() == i,
                forall|k: int| 0 <= k < i ==> inner@[k] == fill,
            decreases len - i,
        {
            inner.push(fill);
            i += 1;
        }
        let buffer = Buffer { width, height, inner };
        proof {
            assert(buffer@.cells =~= Grid::filled(width as nat, height as nat, fill).cells);
            assert forall|x: int, y: int| buffer@.contains(x, y) implies #[trigger] buffer@.at(
                x,
                y,
            ) == fill by {
                Grid::lemma_filled_at(width as nat, height as nat, fill, x, y);
            }
        }
        buffer
    }

    /// The cell at `(x, y)`, or `None` where the buffer has no such cell.
    pub fn pixel(&self, x: usize, y: usize) -> (cell: Option<&T>)
        requires
            self.wf(),
        ensures
            match cell {
                Some(value) => self@.contains(x as int, y as int) && *value == self@.at(
                    x as int,
                    y as int,
                ),
                None => !self@.contains(x as int, y as int),
            },
    {
        if x < self.width && y < self.height {
            proof {
                self.lemma_cell_index(x as int, y as int);
            }
            Some(&self.inner[y * self.width + x])
        } else {
            None
        }
    }

    /// The cell at `(x, y)` for writing, or `None` where the buffer has no
    /// such cell. What is written through the reference is the only change
    /// to the buffer.
    pub fn pixel_mut(&mut self, x: usize, y: usize) -> (cell: Option<&mut T>)
        requires
            old(self).wf(),
        ensures
            cell.is_some() == old(self)@.contains(x as int, y as int),
            cell.is_some() ==> *cell.unwrap() == old(self)@.at(x as int, y as int) && final(self)@
                == old(self)@.set(x as int, y as int, *final(cell.unwrap())),
            cell.is_none() ==> final(self)@ == old(self)@,
    {
        if x < self.width && y < self.height {
            proof {
                self.lemma_cell_index(x as int, y as int);
            }
            let index: usize = y * self.width + x;
            Some(&mut self.inner[index])
        } else {
            None
        }
    }

    /// The width of the buffer in pixels.
    #[inline]
    pub fn width(&self) -> (w: usize)
        ensures
            w == self@.width,
    {
        self.width
    }

    /// The height of the buffer in pixels.
    #[inline]
    pub fn height(&self) -> (h: usize)
        ensures
            h == self@.height,
    {
        self.height
    }

    /// Overwrites every cell with `value`.
    pub fn fill(&mut self, value: T)
        requires
            old(self).wf(),
        ensures
            final(self).wf(),
            final(self)@ == Grid::filled(old(self)@.width, old(self)@.height, value),
            forall|x: int, y: int|
                final(self)@.contains(x, y) ==> #[trigger] final(self)@.at(x, y) == value,
    {
        let len: usize = self.inner.len();
        let mut i: usize = 0;
        while i < len
            invariant
                i <= len,
                self.inner@.len() == len,
                self.width == old(self).width,
                self.height == old(self).height,
                forall|k: int| 0 <= k < i ==> self.inner@[k] == value,
            decreases len - i,
        {
            self.inner[i] = value;
            i += 1;
        }
        proof {
            assert(self@.cells =~= Grid::filled(self@.width, self@.height, value).cells);
            assert forall|x: int, y: int| self@.contains(x, y) implies #[trigger] self@.at(x, y)
                == value by {
                Grid::lemma_filled_at(self@.width, self@.height, value, x, y);
            }
        }
    }

    /// Whether the rectangle at `coords` with extent `dims` lies inside the
    /// buffer, which is what `region_mut` asks of its caller.
    pub fn contains_region(&self, coords: (usize, usize), dims: (usize, usize)) -> (inside: bool)
        ensures
            inside == self@.contains_region(point(coords), point(dims)),
    {
        dims.0 <= self.width && coords.0 <= self.width - dims.0 && dims.1 <= self.height
            && coords.1 <= self.height - dims.1
    }

    /// A cursor over the rectangle at `coords` with extent `dims`, which must
    /// lie inside the buffer. The cursor starts at the rectangle's first
    /// cell; the buffer is not changed.
    #[inline]
    pub fn region_mut(&mut self, coords: (usize, usize), dims: (usize, usize)) -> (region:
        RegionIterMut)
        requires
            old(self).wf(),
            old(self)@.contains_region(point(coords), point(dims)),
        ensures
            *final(self) == *old(self),
            region.wf(),
            region.origin() == point(coords),
            region.extent() == point(dims),
            region.yielded() == 0,
    {
        let (start_x, start_y) = coords;
        let (width, height) = dims;
        proof {
            assert(self.inner@.len() == self.inner.len());
            assert(0 * width == 0) by (nonlinear_arith);
        }
        RegionIterMut {
            buffer_len: self.inner.len(),
            buffer_width: self.width,
            buffer_height: self.height,
            start_x,
            start_y,
            width,
            height,
            x: start_x,
            y: start_y,
        }
    }

    /// Sets every cell of the rectangle at `coords` with extent `dims`, which
    /// must lie inside the buffer, to `color`, and leaves every other cell
    /// as it was.
    #[inline]
    pub fn draw_rect(&mut self, coords: (usize, usize), dims: (usize, usize), color: T)
        requires
            old(self).wf(),
            old(self)@.contains_region(point(coords), point(dims)),
        ensures
            final(self).wf(),
            final(self)@.width == old(self)@.width,
            final(self)@.height == old(self)@.height,
            forall|x: int, y: int|
                final(self)@.contains(x, y) ==> #[trigger] final(self)@.at(x, y) == if in_region(
                    point(coords),
                    point(dims),
                    x,
                    y,
                ) {
                    color
                } else {
                    old(self)@.at(x, y)
                },
            final(self)@ == old(self)@.painted(
                point(coords),
                point(dims),
                color,
                (dims.0 * dims.1) as nat,
            ),
    {
        let ghost origin = point(coords);
        let ghost extent = point(dims);
        let ghost start = self@;
        let mut region = self.region_mut(coords, dims);
        loop
            invariant
                start.wf(),
                start.contains_region(origin, extent),
                region.wf(),
                region.origin() == origin,
                region.extent() == extent,
                0 <= region.yielded() <= region.len(),
                self@ == start.painted(origin, extent, color, region.yielded() as nat),
            ensures
                region.yielded() == region.len(),
                region.extent() == extent,
                self@ == start.painted(origin, extent, color, region.yielded() as nat),
            decreases region.len() - region.yielded(),
        {
            let ghost k = region.yielded();
            match region.next() {
                Some((x, y)) => {
                    proof {
                        lemma_region_cell_rank(origin, extent, k);
                        start.lemma_painted_wf(origin, extent, color, k as nat);
                    }
                    match self.pixel_mut(x, y) {
                        Some(pixel) => {
                            *pixel = color;
                        },
                        None => {},
                    }
                },
                None => {
                    break ;
                },
            }
        }
        proof {
            start.lemma_painted_wf(origin, extent, color, (extent.0 * extent.1) as nat);
            assert forall|x: int, y: int| self@.contains(x, y) implies #[trigger] self@.at(x, y)
                == if in_region(origin, extent, x, y) {
                color
            } else {
                start.at(x, y)
            } by {
                start.lemma_painted_region(origin, extent, color, x, y);
            }
        }
    }

    /// Resizes the buffer to the new dimensions. A cell that both the old
    /// and the new buffer have keeps its value; every other cell is `fill`.
    pub fn resize(&mut self, new_width: usize, new_height: usize, fill: T)
        requires
            old(self).wf(),
            new_width * new_height <= usize::MAX,
        ensures
            final(self).wf(),
            final(self)@ == old(self)@.resized(new_width as nat, new_height as nat, fill),
            forall|x: int, y: int|
                final(self)@.contains(x, y) ==> #[trigger] final(self)@.at(x, y) == if old(
                    self,
                )@.contains(x, y) {
                    old(self)@.at(x, y)
                } else {
                    fill
                },
    {
        let mut grown = Buffer::new(new_width, new_height, fill);
        let rows: usize = if self.height < new_height { self.height } else { new_height };
        let columns: usize = if self.width < new_width { self.width } else { new_width };
        let mut y: usize = 0;
        while y < rows
            invariant
                y <= rows,
                rows <= self.height,
                rows <= new_height,
                columns <= self.width,
                columns <= new_width,
                self.wf(),
                grown.wf(),
                grown.width == new_width,
                grown.height == new_height,
                forall|cx: int, cy: int|
                    grown@.contains(cx, cy) ==> #[trigger] grown@.at(cx, cy) == if cx < columns
                        && cy < y {
                        self@.at(cx, cy)
                    } else {
                        fill
                    },
            decreases rows - y,
        {
            let mut x: usize = 0;
            while x < columns
                invariant
                    x <= columns,
                    y < rows,
                    rows <= self.height,
                    rows <= new_height,
                    columns <= self.width,
                    columns <= new_width,
                    self.wf(),
                    grown.wf(),
                    grown.width == new_width,
                    grown.height == new_height,
                    forall|cx: int, cy: int|
                        grown@.contains(cx, cy) ==> #[trigger] grown@.at(cx, cy) == if cx < columns
                            && (cy < y || (cy == y && cx < x)) {
                            self@.at(cx, cy)
                        } else {
                            fill
                        },
                decreases columns - x,
            {
                proof {
                    self.lemma_cell_index(x as int, y as int);
                    grown.lemma_cell_index(x as int, y as int);
                }
                let ghost before = grown@;
                let src_index: usize = y * self.width + x;
                let dst_index: usize = y * new_width + x;
                grown.inner[dst_index] = self.inner[src_index];
                proof {
                    assert forall|cx: int, cy: int| grown@.contains(cx, cy) implies #[trigger] grown@.at(
                        cx,
                        cy,
                    ) == if cx < columns && (cy < y || (cy == y && cx < x + 1)) {
                        self@.at(cx, cy)
                    } else {
                        fill
                    } by {
                        lemma_index_in_bounds(new_width as int, new_height as int, cx, cy);
                        if cy * new_width + cx == y * new_width + x {
                            lemma_index_injective(new_width as int, cx, cy, x as int, y as int);
                        } else {
                            assert(grown@.at(cx, cy) == before.at(cx, cy));
                        }
                    }
                }
                x += 1;
            }
            y += 1;
        }
        proof {
            let resized = self@.resized(new_width as nat, new_height as nat, fill);
            assert forall|cx: int, cy: int| grown@.contains(cx, cy) implies grown@.at(cx, cy)
                == resized.at(cx, cy) by {
                self@.lemma_resized_at(new_width as nat, new_height as nat, fill, cx, cy);
            }
            assert(resized.wf()) by {
                if new_width > 0 && new_height > 0 {
                    self@.lemma_resized_at(new_width as nat, new_height as nat, fill, 0, 0);
                } else {
                    assert(new_width * new_height == 0) by (nonlinear_arith)
                        requires
                            new_width == 0 || new_height == 0,
                    ;
                }
            }
            grown@.lemma_determined_by_cells(resized);
        }
        self.width = new_width;
        self.height = new_height;
        self.inner = grown.inner;
    }
}

impl<T> AsRef<[T]> for Buffer<T> {
    /// The cells of the buffer, row after row.
    fn as_ref(&self) -> (cells: &[T])
        ensures
            cells@ == self@.cells,
    {
        self.inner.as_slice()
    }
}

impl<T> AsMut<[T]> for Buffer<T> {
    /// The cells of the buffer, row after row, for writing. The dimensions
    /// stay as they are.
    fn as_mut(&mut self) -> (cells: &mut [T])
        ensures
            cells@ == old(self)@.cells,
            final(self)@ == (Grid { cells: final(cells)@, ..old(self)@ }),
    {
        self.inner.as_mut_slice()
    }
}

/// A single-pass cursor over a rectangle of a buffer. It yields the
/// coordinates of the rectangle's cells in row-major order, one per step;
/// the caller reads or writes each cell through the buffer's bounds-checked
/// accessors.
pub struct RegionIterMut {
    // -- Length and dimensions of the buffer --
    buffer_len: usize,
    buffer_width: usize,
    buffer_height: usize,
    // -- Starting coordinates for the region --
    start_x: usize,
    start_y: usize,
    // -- Dimensions of the region to iterate over --
    width: usize,
    height: usize,
    // -- Current coordinates in the iteration --
    x: usize,
    y: usize,
}

impl RegionIterMut {
    /// The first cell of the region.
    pub closed spec fn origin(&self) -> (int, int) {
        (self.start_x as int, self.start_y as int)
    }

    /// The width and height of the region.
    pub closed spec fn extent(&self) -> (int, int) {
        (self.width as int, self.height as int)
    }

    /// How many cells the cursor has yielded so far.
    pub closed spec fn yielded(&self) -> int {
        if self.width == 0 {
            0
        } else {
            (self.y - self.start_y) * self.width + (self.x - self.start_x)
        }
    }

    /// The region lies inside the buffer that the cursor was made for, and
    /// the scan position lies inside the region or just past its last row.
    pub closed spec fn wf(&self) -> bool {
        &&& self.buffer_len == self.buffer_width * self.buffer_height
        &&& self.start_x + self.width <= self.buffer_width
        &&& self.start_y + self.height <= self.buffer_height
        &&& self.start_y <= self.y <= self.start_y + self.height
        &&& if self.width == 0 {
            self.x == self.start_x && self.y == self.start_y
        } else {
            &&& self.start_x <= self.x < self.start_x + self.width
            &&& self.y == self.start_y + self.height ==> self.x == self.start_x
        }
    }

    /// The number of cells in the region.
    pub open spec fn len(&self) -> int {
        self.extent().0 * self.extent().1
    }

    /// Yields the coordinates of the next cell of the region in row-major
    /// order and advances, or yields `None`, and stays as it is, once every
    /// cell of the region has been yielded.
    pub fn next(&mut self) -> (cell: Option<(usize, usize)>)
        requires
            old(self).wf(),
        ensures
            final(self).wf(),
            final(self).origin() == old(self).origin(),
            final(self).extent() == old(self).extent(),
            0 <= old(self).yielded() <= old(self).len(),
            old(self).yielded() < old(self).len() ==> cell.is_some() && point(cell.unwrap())
                == region_cell(old(self).origin(), old(self).extent(), old(self).yielded())
                && final(self).yielded() == old(self).yielded() + 1,
            old(self).yielded() == old(self).len() ==> cell.is_none() && *final(self) == *old(
                self,
            ),
    {
        proof {
            self.lemma_position();
        }
        // If we've reached the vertical end of the region, return `None`
        if self.y >= self.start_y + self.height {
            return None;
        }
        // A region without columns has no cell to yield
        if self.x >= self.start_x + self.width || self.x >= self.buffer_width {
            return None;
        }
        // If we've reached the vertical end of the buffer, return `None`
        if self.y >= self.buffer_height {
            return None;
        }
        proof {
            lemma_index_in_bounds(
                self.buffer_width as int,
                self.buffer_height as int,
                self.x as int,
                self.y as int,
            );
            assert(self.y * self.buffer_width >= 0) by (nonlinear_arith)
                requires
                    self.y >= 0,
                    self.buffer_width >= 0,
            ;
        }
        // Calculate the index in the buffer
        let index: usize = self.y * self.buffer_width + self.x;
        // Check if the index is within the bounds of the buffer
        if index >= self.buffer_len {
            return None;
        }
        let cell = (self.x, self.y);
        // Move to the next pixel
        self.x += 1;
        // If we've reached the horizontal end of the row or the horizontal end of the buffer,
        // reset `x` to `start_x` and increment `y`
        if self.x >= self.start_x + self.width || self.x >= self.buffer_width {
            // Move to the next row
            self.x = self.start_x;
            self.y += 1;
            proof {
                let w = self.width as int;
                let dy = cell.1 - self.start_y;
                assert((dy + 1) * w == dy * w + w) by (nonlinear_arith);
            }
        }
        Some(cell)
    }

    /// Where the scan position stands in the region: the count of yielded
    /// cells is at most the region's size, reaches it exactly when the
    /// position is past the last row, and names the cell at the position.
    proof fn lemma_position(&self)
        requires
            self.wf(),
        ensures
            0 <= self.yielded() <= self.len(),
            self.yielded() == self.len() <==> (self.width == 0 || self.y == self.start_y
                + self.height),
            self.yielded() < self.len() ==> region_cell(
                self.origin(),
                self.extent(),
                self.yielded(),
            ) == (self.x as int, self.y as int),
    {
        let w = self.width as int;
        let h = self.height as int;
        let dx = self.x - self.start_x;
        let dy = self.y - self.start_y;
        assert(w * h == h * w) by (nonlinear_arith);
        if w == 0 {
            assert(w * h == 0) by (nonlinear_arith)
                requires
                    w == 0,
            ;
        } else if dy == h {
            assert(dx == 0);
        } else {
            lemma_index_in_bounds(w, h, dx, dy);
            lemma_fundamental_div_mod_converse(dy * w + dx, w, dy, dx);
        }
    }
}

} // verus!
