//! A uniform spatial index: the world is cut into square cells, and each
//! cell lists the indices of the agents inserted at a position inside it.
use vstd::prelude::*;
use crate::geometry::VISION_RANGE;

verus! {

/// How many cells of side `cell_size` cover a `width` by `height` world.
pub open spec fn cell_count(cell_size: int, width: int, height: int) -> int {
    ((width - 1) / cell_size + 1) * ((height - 1) / cell_size + 1)
}

/// A uniform grid of cells over a `width` by `height` world.
pub struct SpatialGrid {
    pub cell_size: i32,
    pub width: i32,
    pub height: i32,
    pub cols: usize,
    pub rows: usize,
    pub cells: Vec<Vec<usize>>,
}

impl SpatialGrid {
    pub open spec fn wf(self) -> bool {
        &&& 1 <= self.cell_size
        &&& 1 <= self.width
        &&& 1 <= self.height
        &&& self.cols == (self.width - 1) / (self.cell_size as int) + 1
        &&& self.rows == (self.height - 1) / (self.cell_size as int) + 1
        &&& self.cells@.len() == self.cols * self.rows
    }

    /// What each cell holds, in insertion order.
    pub open spec fn contents(self) -> Seq<Seq<usize>> {
        Seq::new(self.cells@.len(), |i: int| self.cells@[i]@)
    }

    pub open spec fn in_bounds(self, x: int, y: int) -> bool {
        0 <= x < self.width && 0 <= y < self.height
    }

    /// The cell that holds the position `(x, y)`.
    pub open spec fn cell_of(self, x: int, y: int) -> int {
        x / (self.cell_size as int) + (y / (self.cell_size as int)) * self.cols
    }

    /// The `k`-th cell (`k < 9`, row by row) of the 3×3 block centred on
    /// the cell of `(x, y)`, if it lies inside the grid.
    pub open spec fn block_cell(self, x: int, y: int, k: int) -> Option<int> {
        let col = x / (self.cell_size as int) + k % 3 - 1;
        let row = y / (self.cell_size as int) + k / 3 - 1;
        if 0 <= col < self.cols && 0 <= row < self.rows {
            Some(col + row * self.cols)
        } else {
            None
        }
    }

    /// The contents of the first `k` cells of the block around `(x, y)`,
    /// one after the other.
    pub open spec fn gathered(self, x: int, y: int, k: int) -> Seq<usize>
        decreases k,
    {
        if k <= 0 {
            Seq::empty()
        } else {
            let prefix = self.gathered(x, y, k - 1);
            match self.block_cell(x, y, k - 1) {
                Some(c) => prefix + self.contents()[c],
                None => prefix,
            }
        }
    }

    /// The candidates that a neighbour query at `(x, y)` returns.
    pub open spec fn neighbors_of(self, x: int, y: int) -> Seq<usize> {
        self.gathered(x, y, 9)
    }

    /// An empty grid whose cells are `cell_size` wide, over a `width` by
    /// `height` world.
    pub fn new(cell_size: i32, width: i32, height: i32) -> (r: SpatialGrid)
        requires
            1 <= cell_size,
            1 <= width,
            1 <= height,
            cell_count(cell_size as int, width as int, height as int) <= usize::MAX,
        ensures
            r.wf(),
            r.cell_size == cell_size,
            r.width == width,
            r.height == height,
            forall|c: int| 0 <= c < r.contents().len() ==> (#[trigger] r.contents()[c]).len() == 0,
    {
        let cols = ((width - 1) / cell_size + 1) as usize;
        let rows = ((height - 1) / cell_size + 1) as usize;
        assert(cols <= 0x7fff_ffff && rows <= 0x7fff_ffff) by {
            vstd::arithmetic::div_mod::lemma_div_is_ordered_by_denominator(
                (width - 1) as int,
                1,
                cell_size as int,
            );
            vstd::arithmetic::div_mod::lemma_div_is_ordered_by_denominator(
                (height - 1) as int,
                1,
                cell_size as int,
            );
        }
        let n = cols * rows;
        let mut cells: Vec<Vec<usize>> = Vec::new();
        let mut i: usize = 0;
        while i < n
            invariant
                i <= n,
                cells@.len() == i,
                forall|c: int| 0 <= c < i ==> (#[trigger] cells@[c])@.len() == 0,
            decreases n - i,
        {
            cells.push(Vec::new());
            i = i + 1;
        }
        SpatialGrid { cell_size, width, height, cols, rows, cells }
    }

    /// Empties every cell.
    pub fn clear(&mut self)
        requires
            old(self).wf(),
        ensures
            final(self).wf(),
            final(self).cell_size == old(self).cell_size,
            final(self).width == old(self).width,
            final(self).height == old(self).height,
            final(self).cols == old(self).cols,
            final(self).rows == old(self).rows,
            final(self).contents().len() == old(self).contents().len(),
            forall|c: int|
                0 <= c < final(self).contents().len() ==> (#[trigger] final(self).contents()[c]).len()
                    == 0,
    {
        let n = self.cells.len();
        let mut i: usize = 0;
        while i < n
            invariant
                i <= n,
                n == self.cells@.len(),
                self.wf(),
                self.cell_size == old(self).cell_size,
                self.width == old(self).width,
                self.height == old(self).height,
                self.cols == old(self).cols,
                self.rows == old(self).rows,
                forall|c: int| 0 <= c < i ==> (#[trigger] self.cells@[c])@.len() == 0,
            decreases n - i,
        {
            self.cells.set(i, Vec::new());
            i = i + 1;
        }
    }

    /// Appends `index` to the cell that holds `(x, y)`.
    pub fn insert(&mut self, x: i32, y: i32, index: usize)
        requires
            old(self).wf(),
            old(self).in_bounds(x as int, y as int),
        ensures
            final(self).wf(),
            final(self).cell_size == old(self).cell_size,
            final(self).width == old(self).width,
            final(self).height == old(self).height,
            final(self).cols == old(self).cols,
            final(self).rows == old(self).rows,
            final(self).contents() == old(self).contents().update(
                old(self).cell_of(x as int, y as int),
                old(self).contents()[old(self).cell_of(x as int, y as int)].push(index),
            ),
    {
        proof {
            self.lemma_cell_in_range(x as int, y as int);
            self.lemma_size_bounds();
        }
        let ncells = self.cells.len();
        assert(self.cell_of(x as int, y as int) < ncells);
        let col = (x / self.cell_size) as usize;
        let row = (y / self.cell_size) as usize;
        let c = col + row * self.cols;
        let mut cell = self.cells[c].clone();
        assert(cell@ =~= self.cells@[c as int]@);
        cell.push(index);
        self.cells.set(c, cell);
        assert(self.contents() =~= old(self).contents().update(
            c as int,
            old(self).contents()[c as int].push(index),
        ));
    }

    /// The indices in the cell of `(x, y)` and in the eight cells around
    /// it, cell by cell, row by row.
    pub fn get_neighbors(&self, x: i32, y: i32) -> (r: Vec<usize>)
        requires
            self.wf(),
            self.in_bounds(x as int, y as int),
        ensures
            r@ == self.neighbors_of(x as int, y as int),
    {
        proof {
            self.lemma_cell_in_range(x as int, y as int);
        }
        proof {
            self.lemma_size_bounds();
        }
        let n = self.cells.len();
        let col0 = (x / self.cell_size) as i64;
        let row0 = (y / self.cell_size) as i64;
        let cols = self.cols as i64;
        let rows = self.rows as i64;
        let mut result: Vec<usize> = Vec::new();
        let mut k: i64 = 0;
        while k < 9
            invariant
                0 <= k <= 9,
                self.wf(),
                col0 == (x as int) / (self.cell_size as int),
                row0 == (y as int) / (self.cell_size as int),
                0 <= col0 < cols,
                0 <= row0 < rows,
                cols == self.cols,
                rows == self.rows,
                n == self.cells@.len(),
                cols * rows == n,
                cols * rows <= 0x7fff_ffff * 0x7fff_ffff,
                result@ == self.gathered(x as int, y as int, k as int),
            decreases 9 - k,
        {
            let col = col0 + k % 3 - 1;
            let row = row0 + k / 3 - 1;
            if 0 <= col && col < cols && 0 <= row && row < rows {
                assert(0 <= row * cols && row * cols + col < cols * rows) by (nonlinear_arith)
                    requires
                        0 <= col < cols,
                        0 <= row < rows,
                ;
                let idx = (col + row * cols) as usize;
                let cell = &self.cells[idx];
                let ghost before = result@;
                let mut j: usize = 0;
                while j < cell.len()
                    invariant
                        j <= cell@.len(),
                        result@ == before + cell@.take(j as int),
                    decreases cell@.len() - j,
                {
                    result.push(cell[j]);
                    j = j + 1;
                    assert(cell@.take(j as int) =~= cell@.take(j - 1).push(cell@[j - 1]));
                }
                assert(cell@.take(j as int) =~= cell@);
                assert(self.contents()[idx as int] == cell@);
            }
            k = k + 1;
        }
        result
    }

    /// What the first `k` block cells gather is kept by any longer prefix.
    pub proof fn lemma_gathered_grows(self, x: int, y: int, k: int, m: int, i: int)
        requires
            0 <= k <= m,
            0 <= i < self.gathered(x, y, k).len(),
        ensures
            self.gathered(x, y, m).contains(self.gathered(x, y, k)[i]),
        decreases m - k,
    {
        if k == m {
            assert(self.gathered(x, y, m)[i] == self.gathered(x, y, k)[i]);
        } else {
            self.lemma_gathered_grows(x, y, k, m - 1, i);
            let v = self.gathered(x, y, k)[i];
            let prev = self.gathered(x, y, m - 1);
            let j = choose|j: int| 0 <= j < prev.len() && prev[j] == v;
            match self.block_cell(x, y, m - 1) {
                Some(c) => {
                    assert((prev + self.contents()[c])[j] == v);
                },
                None => {},
            }
        }
    }

    /// A neighbour query returns everything in each grid cell of its block.
    pub proof fn lemma_block_cell_gathered(self, x: int, y: int, k: int, c: int, idx: usize)
        requires
            0 <= k < 9,
            self.block_cell(x, y, k) == Some(c),
            self.contents()[c].contains(idx),
        ensures
            self.neighbors_of(x, y).contains(idx),
    {
        let cell = self.contents()[c];
        let j = choose|j: int| 0 <= j < cell.len() && cell[j] == idx;
        let g = self.gathered(x, y, k + 1);
        assert(g == self.gathered(x, y, k) + cell);
        assert(g[self.gathered(x, y, k).len() + j] == idx);
        self.lemma_gathered_grows(x, y, k + 1, 9, self.gathered(x, y, k).len() + j);
    }

    /// Neighbour completeness: when cells are at least `VISION_RANGE` wide,
    /// an index inserted at a position within `VISION_RANGE` of `(px, py)`
    /// is among the neighbours returned at `(px, py)`.
    pub proof fn lemma_neighbors_complete(self, px: int, py: int, qx: int, qy: int, idx: usize)
        requires
            self.wf(),
            self.cell_size >= VISION_RANGE,
            self.in_bounds(px, py),
            self.in_bounds(qx, qy),
            (px - qx) * (px - qx) + (py - qy) * (py - qy) <= VISION_RANGE * VISION_RANGE,
            self.contents()[self.cell_of(qx, qy)].contains(idx),
        ensures
            self.neighbors_of(px, py).contains(idx),
    {
        let cs = self.cell_size as int;
        crate::geometry::lemma_square_bound(px - qx, py - qy);
        crate::geometry::lemma_square_bound(py - qy, px - qx);
        self.lemma_cell_in_range(qx, qy);
        self.lemma_cell_in_range(px, py);
        lemma_near_cells(px, qx, cs);
        lemma_near_cells(py, qy, cs);
        let dc = qx / cs - px / cs;
        let dr = qy / cs - py / cs;
        let k = (dr + 1) * 3 + (dc + 1);
        assert(k % 3 == dc + 1 && k / 3 == dr + 1);
        assert(self.block_cell(px, py, k) == Some(self.cell_of(qx, qy)));
        self.lemma_block_cell_gathered(px, py, k, self.cell_of(qx, qy), idx);
    }

    pub proof fn lemma_size_bounds(self)
        requires
            self.wf(),
        ensures
            1 <= self.cols <= 0x7fff_ffff,
            1 <= self.rows <= 0x7fff_ffff,
            self.cols * self.rows <= 0x7fff_ffff * 0x7fff_ffff,
    {
        vstd::arithmetic::div_mod::lemma_div_is_ordered_by_denominator(
            (self.width - 1) as int,
            1,
            self.cell_size as int,
        );
        vstd::arithmetic::div_mod::lemma_div_is_ordered_by_denominator(
            (self.height - 1) as int,
            1,
            self.cell_size as int,
        );
        vstd::arithmetic::div_mod::lemma_div_pos_is_pos((self.width - 1) as int, self.cell_size as int);
        vstd::arithmetic::div_mod::lemma_div_pos_is_pos((self.height - 1) as int, self.cell_size as int);
        let c = self.cols as int;
        let r = self.rows as int;
        assert(c * r <= 0x7fff_ffff * 0x7fff_ffff) by (nonlinear_arith)
            requires
                1 <= c <= 0x7fff_ffff,
                1 <= r <= 0x7fff_ffff,
        ;
    }

    /// Every index that a cell holds is below `n`.
    pub open spec fn indices_below(self, n: int) -> bool {
        forall|c: int, j: int|
            0 <= c < self.contents().len() && 0 <= j < self.contents()[c].len() ==> #[trigger] self.contents()[c][j] < n
    }

    /// A neighbour query returns only indices that some cell holds.
    pub proof fn lemma_gathered_below(self, x: int, y: int, k: int, n: int)
        requires
            self.wf(),
            self.indices_below(n),
        ensures
            forall|i: int| 0 <= i < self.gathered(x, y, k).len() ==> #[trigger] self.gathered(x, y, k)[i] < n,
        decreases k,
    {
        if k > 0 {
            self.lemma_gathered_below(x, y, k - 1, n);
            let prefix = self.gathered(x, y, k - 1);
            match self.block_cell(x, y, k - 1) {
                Some(c) => {
                    let col = x / (self.cell_size as int) + (k - 1) % 3 - 1;
                    let row = y / (self.cell_size as int) + (k - 1) / 3 - 1;
                    assert(0 <= col + row * self.cols < self.cols * self.rows) by (nonlinear_arith)
                        requires
                            0 <= col < self.cols,
                            0 <= row < self.rows,
                    ;
                    let g = prefix + self.contents()[c];
                    assert forall|i: int| 0 <= i < g.len() implies #[trigger] g[i] < n by {
                        if i >= prefix.len() {
                            assert(g[i] == self.contents()[c][i - prefix.len()]);
                        }
                    }
                },
                None => {},
            }
        }
    }

    /// The cell of an in-bounds position is a cell of the grid.
    pub proof fn lemma_cell_in_range(self, x: int, y: int)
        requires
            self.wf(),
            self.in_bounds(x, y),
        ensures
            0 <= x / (self.cell_size as int) < self.cols,
            0 <= y / (self.cell_size as int) < self.rows,
            0 <= (y / (self.cell_size as int)) * self.cols <= self.cell_of(x, y),
            0 <= self.cell_of(x, y) < self.cells@.len(),
    {
        let cs = self.cell_size as int;
        vstd::arithmetic::div_mod::lemma_div_is_ordered(x, self.width - 1, cs);
        vstd::arithmetic::div_mod::lemma_div_is_ordered(y, self.height - 1, cs);
        vstd::arithmetic::div_mod::lemma_div_pos_is_pos(x, cs);
        vstd::arithmetic::div_mod::lemma_div_pos_is_pos(y, cs);
        let col = x / cs;
        let row = y / cs;
        assert(0 <= row * self.cols && 0 <= col + row * self.cols < self.cols * self.rows) by (nonlinear_arith)
            requires
                0 <= col < self.cols,
                0 <= row < self.rows,
        ;
    }
}

/// Two coordinates at most one cell width apart lie in the same or in
/// adjacent cells.
proof fn lemma_near_cells(a: int, b: int, cs: int)
    requires
        0 <= a,
        0 <= b,
        1 <= cs,
        -cs <= a - b <= cs,
    ensures
        -1 <= b / cs - a / cs <= 1,
{
    vstd::arithmetic::div_mod::lemma_fundamental_div_mod(a, cs);
    vstd::arithmetic::div_mod::lemma_fundamental_div_mod(b, cs);
    vstd::arithmetic::div_mod::lemma_mod_bound(a, cs);
    vstd::arithmetic::div_mod::lemma_mod_bound(b, cs);
    let qa = a / cs;
    let qb = b / cs;
    assert(-1 <= qb - qa <= 1) by (nonlinear_arith)
        requires
            a == cs * qa + a % cs,
            b == cs * qb + b % cs,
            0 <= a % cs < cs,
            0 <= b % cs < cs,
            -cs <= a - b <= cs,
            1 <= cs,
    ;
}

} // verus!
