//! The mapping between the bits of a payload and the pixel blocks that
//! carry them: a grid of square cells, row by row, left to right.

use vstd::prelude::*;

verus! {

/// The largest pixel coordinate or extent of a region.
pub const MAX_EXTENT: u64 = 0xFFFF_FFFF;

/// A grid of square cells laid over a frame.
#[derive(Clone, Copy, Debug, PartialEq, Eq, Structural)]
pub struct CellGrid {
    /// Column of the first pixel of the grid.
    pub x: u64,
    /// Row of the first pixel of the grid.
    pub y: u64,
    /// Side of the block of pixels that a cell fills.
    pub cell: u64,
    /// Distance from one cell to the next: the block and its guard band.
    pub pitch: u64,
    /// Cells in a row of the grid.
    pub cols: u64,
    /// Rows of cells.
    pub rows: u64,
}

impl CellGrid {
    /// The grid lies within coordinates of 33 bits and its cells do not
    /// overlap.
    pub open spec fn wf(&self) -> bool {
        &&& self.x <= MAX_EXTENT
        &&& self.y <= MAX_EXTENT
        &&& 0 < self.pitch
        &&& self.cell <= self.pitch
        &&& self.cols * self.pitch <= MAX_EXTENT
        &&& self.rows * self.pitch <= MAX_EXTENT
    }

    /// The grid that a region of `width` by `height` pixels at `(x, y)`
    /// holds, with blocks of side `cell_size` and `guard` pixels between
    /// them.
    pub open spec fn of_region(
        x: u32,
        y: u32,
        width: u32,
        height: u32,
        cell_size: u8,
        guard: u8,
    ) -> CellGrid {
        CellGrid {
            x: x as u64,
            y: y as u64,
            cell: cell_size as u64,
            pitch: (cell_size + guard) as u64,
            cols: (width as int / (cell_size + guard)) as u64,
            rows: (height as int / (cell_size + guard)) as u64,
        }
    }

    /// The grid of `cols` by `rows` cells of side `cell_size` at `(x, y)`,
    /// without guard bands.
    pub open spec fn of_shape(x: u32, y: u32, cell_size: usize, cols: usize, rows: usize)
        -> CellGrid {
        CellGrid {
            x: x as u64,
            y: y as u64,
            cell: cell_size as u64,
            pitch: cell_size as u64,
            cols: cols as u64,
            rows: rows as u64,
        }
    }

    /// The number of bits that the grid holds.
    pub open spec fn max_bits(&self) -> int {
        self.cols * self.rows
    }

    /// Column of the first pixel of cell `i`.
    pub open spec fn origin_x(&self, i: int) -> int {
        self.x + (i % (self.cols as int)) * self.pitch
    }

    /// Row of the first pixel of cell `i`.
    pub open spec fn origin_y(&self, i: int) -> int {
        self.y + (i / (self.cols as int)) * self.pitch
    }

    /// Whether the grid lies within the rows of a plane of `len` bytes and
    /// the plane holds all of its rows.
    pub open spec fn lies_in(&self, stride: int, len: int) -> bool {
        &&& self.x + self.cols * self.pitch <= stride
        &&& (self.y + self.rows * self.pitch) * stride <= len
    }

    /// Whether pixel `(px, py)` lies in the block of cell `i`.
    pub open spec fn covers(&self, i: int, px: int, py: int) -> bool {
        &&& self.origin_x(i) <= px < self.origin_x(i) + self.cell
        &&& self.origin_y(i) <= py < self.origin_y(i) + self.cell
    }

    /// Lays the grid of a region.
    pub fn for_region(x: u32, y: u32, width: u32, height: u32, cell_size: u8, guard: u8) -> (g:
        CellGrid)
        requires
            cell_size + guard > 0,
        ensures
            g == Self::of_region(x, y, width, height, cell_size, guard),
            g.wf(),
    {
        let pitch: u64 = cell_size as u64 + guard as u64;
        let cols: u64 = width as u64 / pitch;
        let rows: u64 = height as u64 / pitch;
        proof {
            assert((width as int / pitch as int) * pitch <= width) by (nonlinear_arith)
                requires
                    pitch > 0,
                    width >= 0,
            ;
            assert((height as int / pitch as int) * pitch <= height) by (nonlinear_arith)
                requires
                    pitch > 0,
                    height >= 0,
            ;
        }
        CellGrid { x: x as u64, y: y as u64, cell: cell_size as u64, pitch, cols, rows }
    }

    /// Says whether cells of side `cell_size` in `cols` columns and `rows`
    /// rows make a grid within coordinates of 32 bits.
    pub fn shape_fits(cell_size: usize, cols: usize, rows: usize) -> (ok: bool)
        ensures
            ok == (0 < cell_size && cols * cell_size <= MAX_EXTENT && rows * cell_size
                <= MAX_EXTENT),
    {
        if cell_size == 0 {
            return false;
        }
        let limit: usize = (MAX_EXTENT / (cell_size as u64)) as usize;
        proof {
            let c = cell_size as int;
            let l = MAX_EXTENT as int / c;
            assert(cols <= l <==> cols * c <= MAX_EXTENT) by (nonlinear_arith)
                requires
                    c > 0,
                    l == MAX_EXTENT as int / c,
                    cols >= 0,
            ;
            assert(rows <= l <==> rows * c <= MAX_EXTENT) by (nonlinear_arith)
                requires
                    c > 0,
                    l == MAX_EXTENT as int / c,
                    rows >= 0,
            ;
        }
        cols <= limit && rows <= limit
    }

    /// Lays a grid of a given shape.
    pub fn with_shape(x: u32, y: u32, cell_size: usize, cols: usize, rows: usize) -> (g: CellGrid)
        requires
            0 < cell_size,
            cols * cell_size <= MAX_EXTENT,
            rows * cell_size <= MAX_EXTENT,
        ensures
            g == Self::of_shape(x, y, cell_size, cols, rows),
            g.wf(),
    {
        CellGrid {
            x: x as u64,
            y: y as u64,
            cell: cell_size as u64,
            pitch: cell_size as u64,
            cols: cols as u64,
            rows: rows as u64,
        }
    }

    /// The number of bits that the grid holds.
    pub fn capacity(&self) -> (n: u64)
        requires
            self.wf(),
        ensures
            n == self.max_bits(),
    {
        proof {
            self.lemma_counts_bounded();
            assert(self.cols * self.rows <= MAX_EXTENT * MAX_EXTENT) by (nonlinear_arith)
                requires
                    self.cols <= MAX_EXTENT,
                    self.rows <= MAX_EXTENT,
            ;
        }
        self.cols * self.rows
    }

    /// The first pixel of cell `i`.
    pub fn origin(&self, i: u64) -> (p: (u64, u64))
        requires
            self.wf(),
            i < self.max_bits(),
        ensures
            p.0 == self.origin_x(i as int),
            p.1 == self.origin_y(i as int),
            p.0 + self.cell <= 2 * MAX_EXTENT,
            p.1 + self.cell <= 2 * MAX_EXTENT,
    {
        proof {
            self.lemma_origin_bounded(i as int);
        }
        let col = i % self.cols;
        let row = i / self.cols;
        (self.x + col * self.pitch, self.y + row * self.pitch)
    }

    /// The grid of a region is well formed and lies within the region.
    pub proof fn lemma_of_region(x: u32, y: u32, width: u32, height: u32, cell_size: u8, guard: u8)
        requires
            cell_size + guard > 0,
        ensures
            Self::of_region(x, y, width, height, cell_size, guard).wf(),
            Self::of_region(x, y, width, height, cell_size, guard).cols * (cell_size + guard)
                <= width,
            Self::of_region(x, y, width, height, cell_size, guard).rows * (cell_size + guard)
                <= height,
    {
        let pitch = cell_size + guard;
        assert(0 <= (width as int / pitch) && (width as int / pitch) * pitch <= width)
            by (nonlinear_arith)
            requires
                pitch > 0,
                width >= 0,
        ;
        assert(0 <= (height as int / pitch) && (height as int / pitch) * pitch <= height)
            by (nonlinear_arith)
            requires
                pitch > 0,
                height >= 0,
        ;
    }

    /// Neither count of cells exceeds `MAX_EXTENT`.
    pub proof fn lemma_counts_bounded(&self)
        requires
            self.wf(),
        ensures
            self.cols <= MAX_EXTENT,
            self.rows <= MAX_EXTENT,
    {
        assert(self.cols <= self.cols * self.pitch) by (nonlinear_arith)
            requires
                self.pitch >= 1,
                self.cols >= 0,
        ;
        assert(self.rows <= self.rows * self.pitch) by (nonlinear_arith)
            requires
                self.pitch >= 1,
                self.rows >= 0,
        ;
    }

    /// The block of a cell of the grid ends within the grid's extent.
    pub proof fn lemma_origin_bounded(&self, i: int)
        requires
            self.wf(),
            0 <= i < self.max_bits(),
        ensures
            self.cols > 0,
            0 <= i % (self.cols as int) < self.cols,
            0 <= i / (self.cols as int) < self.rows,
            self.x <= self.origin_x(i),
            self.y <= self.origin_y(i),
            self.origin_x(i) + self.pitch <= self.x + self.cols * self.pitch,
            self.origin_y(i) + self.pitch <= self.y + self.rows * self.pitch,
            (i % (self.cols as int)) * self.pitch + self.pitch <= MAX_EXTENT,
            (i / (self.cols as int)) * self.pitch + self.pitch <= MAX_EXTENT,
    {
        let c = self.cols as int;
        let r = self.rows as int;
        let p = self.pitch as int;
        assert(c > 0) by (nonlinear_arith)
            requires
                0 <= i < c * r,
                c >= 0,
        ;
        assert(0 <= i % c < c);
        assert(0 <= i / c < r) by (nonlinear_arith)
            requires
                0 <= i < c * r,
                c > 0,
        ;
        assert(0 <= (i % c) * p && (i % c) * p + p <= c * p) by (nonlinear_arith)
            requires
                0 <= i % c < c,
                p > 0,
        ;
        assert(0 <= (i / c) * p && (i / c) * p + p <= r * p) by (nonlinear_arith)
            requires
                0 <= i / c < r,
                p > 0,
        ;
    }

    /// The block of a cell of a grid that lies in a plane lies in the
    /// plane.
    pub proof fn lemma_cell_in_plane(&self, stride: int, len: int, i: int)
        requires
            self.wf(),
            0 <= i < self.max_bits(),
            self.lies_in(stride, len),
        ensures
            0 <= self.origin_x(i),
            0 <= self.origin_y(i),
            self.origin_x(i) + self.cell <= stride,
            (self.origin_y(i) + self.cell) * stride <= len,
    {
        self.lemma_origin_bounded(i);
        let top = self.origin_y(i) + self.cell;
        let bottom = self.y + self.rows * self.pitch;
        assert(top * stride <= bottom * stride) by (nonlinear_arith)
            requires
                top <= bottom,
                0 <= stride,
        ;
    }

    /// A pixel lies in the block of at most one cell: the cell is found
    /// again from the pixel.
    pub proof fn lemma_cell_of_pixel(&self, i: int, px: int, py: int)
        requires
            self.wf(),
            0 <= i < self.max_bits(),
            self.covers(i, px, py),
        ensures
            i == ((py - self.y) / (self.pitch as int)) * self.cols + (px - self.x) / (
            self.pitch as int),
    {
        self.lemma_origin_bounded(i);
        let c = self.cols as int;
        let p = self.pitch as int;
        let col = i % c;
        let row = i / c;
        let dx = px - self.origin_x(i);
        let dy = py - self.origin_y(i);
        assert((col * p + dx) / p == col) by (nonlinear_arith)
            requires
                0 <= dx < p,
                0 <= col,
        ;
        assert((row * p + dy) / p == row) by (nonlinear_arith)
            requires
                0 <= dy < p,
                0 <= row,
        ;
        assert(px - self.x == col * p + dx);
        assert(py - self.y == row * p + dy);
        assert(i == row * c + col) by (nonlinear_arith)
            requires
                row == i / c,
                col == i % c,
                c > 0,
        ;
    }
}

} // verus!
