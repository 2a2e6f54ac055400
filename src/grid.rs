use vstd::prelude::*;
use vstd::arithmetic::div_mod::lemma_fundamental_div_mod_converse;

verus! {

/// Position of cell `(x, y, z)` in the flat cell array of a grid that is `w`
/// cells wide and `h` cells high: x varies fastest, then y, then z.
pub open spec fn cell_index(w: int, h: int, x: int, y: int, z: int) -> int {
    x + y * w + z * (w * h)
}

proof fn lemma_index_in_range(w: int, h: int, d: int, x: int, y: int, z: int)
    requires
        0 <= x < w,
        0 <= y < h,
        0 <= z < d,
    ensures
        0 <= y * w,
        x + y * w < w * h,
        0 <= z * (w * h),
        z * (w * h) + w * h <= w * h * d,
        0 <= cell_index(w, h, x, y, z) < w * h * d,
{
    assert(0 <= y * w && x + y * w < w * h) by (nonlinear_arith)
        requires 0 <= x < w, 0 <= y < h;
    assert(0 <= z * (w * h) && z * (w * h) + w * h <= w * h * d) by (nonlinear_arith)
        requires 0 <= z < d, 0 < w, 0 < h;
}

proof fn lemma_index_injective(w: int, h: int, x1: int, y1: int, z1: int, x2: int, y2: int, z2: int)
    requires
        0 <= x1 < w,
        0 <= y1 < h,
        0 <= z1,
        0 <= x2 < w,
        0 <= y2 < h,
        0 <= z2,
        cell_index(w, h, x1, y1, z1) == cell_index(w, h, x2, y2, z2),
    ensures
        x1 == x2 && y1 == y2 && z1 == z2,
{
    lemma_index_in_range(w, h, z1 + 1, x1, y1, z1);
    lemma_index_in_range(w, h, z2 + 1, x2, y2, z2);
    let i = cell_index(w, h, x1, y1, z1);
    assert(z1 * (w * h) == (w * h) * z1) by (nonlinear_arith);
    assert(z2 * (w * h) == (w * h) * z2) by (nonlinear_arith);
    lemma_fundamental_div_mod_converse(i, w * h, z1, x1 + y1 * w);
    lemma_fundamental_div_mod_converse(i, w * h, z2, x2 + y2 * w);
    let a = x1 + y1 * w;
    lemma_fundamental_div_mod_converse(a, w, y1, x1);
    lemma_fundamental_div_mod_converse(a, w, y2, x2);
}

/// A box-shaped grid of binary voxels: each cell is either solid or empty.
#[derive(Clone)]
pub struct VoxelGrid {
    width: u32,
    height: u32,
    depth: u32,
    cells: Vec<bool>,
}

impl VoxelGrid {
    /// Well-formedness: the cell array holds exactly one entry per cell.
    pub closed spec fn wf(&self) -> bool {
        &&& self.cells@.len() == self.width * self.height * self.depth
        &&& self.width * self.height * self.depth <= usize::MAX
    }

    /// Number of cells along x.
    pub closed spec fn spec_width(&self) -> nat {
        self.width as nat
    }

    /// Number of cells along y.
    pub closed spec fn spec_height(&self) -> nat {
        self.height as nat
    }

    /// Number of cells along z.
    pub closed spec fn spec_depth(&self) -> nat {
        self.depth as nat
    }

    pub open spec fn in_bounds(&self, x: int, y: int, z: int) -> bool {
        &&& 0 <= x < self.spec_width()
        &&& 0 <= y < self.spec_height()
        &&& 0 <= z < self.spec_depth()
    }

    /// Whether the cell at `(x, y, z)` is solid; every cell outside the grid is empty.
    pub open spec fn voxel(&self, x: int, y: int, z: int) -> bool {
        self.in_bounds(x, y, z) && self.stored(x, y, z)
    }

    /// The stored value of the cell at `(x, y, z)`, meaningful inside the grid.
    pub closed spec fn stored(&self, x: int, y: int, z: int) -> bool {
        self.cells@[cell_index(self.width as int, self.height as int, x, y, z)]
    }

    pub open spec fn same_dims(&self, other: &VoxelGrid) -> bool {
        &&& self.spec_width() == other.spec_width()
        &&& self.spec_height() == other.spec_height()
        &&& self.spec_depth() == other.spec_depth()
    }

    pub open spec fn cell_count(&self) -> nat {
        self.spec_width() * self.spec_height() * self.spec_depth()
    }

    /// Each extent fits in `u32`.
    pub proof fn lemma_dims_fit(&self)
        ensures
            self.spec_width() <= u32::MAX,
            self.spec_height() <= u32::MAX,
            self.spec_depth() <= u32::MAX,
    {
    }

    /// A well-formed grid holds no more cells than memory can index.
    pub proof fn lemma_cell_count_bound(&self)
        requires
            self.wf(),
        ensures
            self.cell_count() <= usize::MAX,
    {
    }

    /// An all-empty grid of the given size.
    pub fn new(width: u32, height: u32, depth: u32) -> (r: VoxelGrid)
        requires
            width * height * depth <= usize::MAX,
        ensures
            r.wf(),
            r.spec_width() == width,
            r.spec_height() == height,
            r.spec_depth() == depth,
            forall|x: int, y: int, z: int| !r.voxel(x, y, z),
    {
        assert(width as u64 * height as u64 <= u64::MAX) by (nonlinear_arith)
            requires width <= u32::MAX, height <= u32::MAX;
        let area: u64 = width as u64 * height as u64;
        let n = (area as u128 * depth as u128) as usize;
        let mut cells: Vec<bool> = Vec::new();
        while cells.len() < n
            invariant
                cells.len() <= n,
                forall|i: int| 0 <= i < cells.len() ==> !cells@[i],
            decreases n - cells.len(),
        {
            cells.push(false);
        }
        let r = VoxelGrid { width, height, depth, cells };
        assert forall|x: int, y: int, z: int| !r.voxel(x, y, z) by {
            if r.in_bounds(x, y, z) {
                lemma_index_in_range(width as int, height as int, depth as int, x, y, z);
            }
        }
        r
    }

    pub fn width(&self) -> (r: u32)
        ensures
            r == self.spec_width(),
    {
        self.width
    }

    pub fn height(&self) -> (r: u32)
        ensures
            r == self.spec_height(),
    {
        self.height
    }

    pub fn depth(&self) -> (r: u32)
        ensures
            r == self.spec_depth(),
    {
        self.depth
    }

    /// Whether the cell at `(x, y, z)` is solid; `false` for any coordinate
    /// outside the grid.
    pub fn get(&self, x: i32, y: i32, z: i32) -> (r: bool)
        requires
            self.wf(),
        ensures
            r == self.voxel(x as int, y as int, z as int),
    {
        if x < 0 || y < 0 || z < 0 || x as u32 >= self.width || y as u32 >= self.height
            || z as u32 >= self.depth {
            return false;
        }
        let i = self.index(x as u32, y as u32, z as u32);
        self.cells[i]
    }

    fn index(&self, x: u32, y: u32, z: u32) -> (i: usize)
        requires
            self.wf(),
            self.in_bounds(x as int, y as int, z as int),
        ensures
            i == cell_index(self.width as int, self.height as int, x as int, y as int, z as int),
            i < self.cells@.len(),
    {
        proof {
            lemma_index_in_range(
                self.width as int,
                self.height as int,
                self.depth as int,
                x as int,
                y as int,
                z as int,
            );
        }
        let w = self.width as usize;
        let h = self.height as usize;
        x as usize + y as usize * w + z as usize * (w * h)
    }

    /// Whether the cell at `(x, y, z)` is solid, for unsigned coordinates;
    /// `false` outside the grid.
    pub fn cell(&self, x: u32, y: u32, z: u32) -> (r: bool)
        requires
            self.wf(),
        ensures
            r == self.voxel(x as int, y as int, z as int),
    {
        if x >= self.width || y >= self.height || z >= self.depth {
            return false;
        }
        let i = self.index(x, y, z);
        self.cells[i]
    }

    /// Writes `value` into the cell at `(x, y, z)`. Does nothing for a
    /// coordinate outside the grid. Returns whether the cell actually changed.
    pub fn set(&mut self, x: i32, y: i32, z: i32, value: bool) -> (changed: bool)
        requires
            old(self).wf(),
        ensures
            final(self).wf(),
            written(*old(self), *final(self), x as int, y as int, z as int, value),
            changed == (old(self).in_bounds(x as int, y as int, z as int) && old(self).voxel(
                x as int,
                y as int,
                z as int,
            ) != value),
    {
        if x < 0 || y < 0 || z < 0 {
            return false;
        }
        self.set_cell(x as u32, y as u32, z as u32, value)
    }

    /// [`VoxelGrid::set`] for unsigned coordinates.
    pub fn set_cell(&mut self, x: u32, y: u32, z: u32, value: bool) -> (changed: bool)
        requires
            old(self).wf(),
        ensures
            final(self).wf(),
            written(*old(self), *final(self), x as int, y as int, z as int, value),
            changed == (old(self).in_bounds(x as int, y as int, z as int) && old(self).voxel(
                x as int,
                y as int,
                z as int,
            ) != value),
    {
        if x >= self.width || y >= self.height || z >= self.depth {
            return false;
        }
        let i = self.index(x, y, z);
        let changed = self.cells[i] != value;
        self.cells.set(i, value);
        proof {
            let w = self.width as int;
            let h = self.height as int;
            let d = self.depth as int;
            assert forall|a: int, b: int, c: int|
                #[trigger] self.voxel(a, b, c) == if a == x && b == y && c == z
                    && old(self).in_bounds(a, b, c) {
                    value
                } else {
                    old(self).voxel(a, b, c)
                } by {
                if self.in_bounds(a, b, c) {
                    lemma_index_in_range(w, h, d, a, b, c);
                    if !(a == x && b == y && c == z) {
                        if cell_index(w, h, a, b, c) == i as int {
                            lemma_index_injective(w, h, a, b, c, x as int, y as int, z as int);
                        }
                    }
                }
            }
        }
        changed
    }

    /// Terrain fill: a grid in which column `(x, z)` is solid from the bottom
    /// up to, not including, height `heights[x + z * width]` (clipped to the
    /// grid's height), and empty above.
    pub fn from_heights(width: u32, height: u32, depth: u32, heights: &Vec<u32>) -> (r: VoxelGrid)
        requires
            width * height * depth <= usize::MAX,
            heights@.len() == width * depth,
        ensures
            r.wf(),
            r.spec_width() == width,
            r.spec_height() == height,
            r.spec_depth() == depth,
            forall|x: int, y: int, z: int|
                #[trigger] r.voxel(x, y, z) == (r.in_bounds(x, y, z) && y < heights@[x + z
                    * width]),
    {
        let mut grid = VoxelGrid::new(width, height, depth);
        let mut x: u32 = 0;
        while x < width
            invariant
                grid.wf(),
                x <= width,
                grid.spec_width() == width,
                grid.spec_height() == height,
                grid.spec_depth() == depth,
                heights@.len() == width * depth,
                forall|a: int, b: int, c: int|
                    #[trigger] grid.voxel(a, b, c) == (grid.in_bounds(a, b, c) && a < x && b
                        < heights@[a + c * width]),
            decreases width - x,
        {
            let mut z: u32 = 0;
            while z < depth
                invariant
                    grid.wf(),
                    x < width,
                    z <= depth,
                    grid.spec_width() == width,
                    grid.spec_height() == height,
                    grid.spec_depth() == depth,
                    heights@.len() == width * depth,
                    forall|a: int, b: int, c: int|
                        #[trigger] grid.voxel(a, b, c) == (grid.in_bounds(a, b, c) && (a < x || (a
                            == x && c < z)) && b < heights@[a + c * width]),
                decreases depth - z,
            {
                let n = heights.len();
                proof {
                    lemma_index_in_range(width as int, depth as int, 1, x as int, z as int, 0);
                }
                let column = heights[(x as usize) + (z as usize) * (width as usize)];
                let top = if column < height {
                    column
                } else {
                    height
                };
                let mut y: u32 = 0;
                while y < top
                    invariant
                        grid.wf(),
                        x < width,
                        z < depth,
                        y <= top,
                        top <= height,
                        top <= column,
                        column == heights@[x + z * width],
                        grid.spec_width() == width,
                        grid.spec_height() == height,
                        grid.spec_depth() == depth,
                        heights@.len() == width * depth,
                        forall|a: int, b: int, c: int|
                            #[trigger] grid.voxel(a, b, c) == (grid.in_bounds(a, b, c) && (a < x
                                || (a == x && c < z) || (a == x && c == z && b < y)) && b
                                < heights@[a + c * width]),
                    decreases top - y,
                {
                    grid.set_cell(x, y, z, true);
                    y = y + 1;
                }
                z = z + 1;
            }
            x = x + 1;
        }
        grid
    }
}

/// What [`VoxelGrid::set`] does to a grid: the cell `(x, y, z)`, when inside
/// the grid, holds `value`; every other cell is as before.
pub open spec fn written(before: VoxelGrid, after: VoxelGrid, x: int, y: int, z: int, value: bool) -> bool {
    &&& after.same_dims(&before)
    &&& forall|a: int, b: int, c: int|
        #[trigger] after.voxel(a, b, c) == if a == x && b == y && c == z && before.in_bounds(a, b, c) {
            value
        } else {
            before.voxel(a, b, c)
        }
}

/// Reading a cell right after writing it gives the value written, for any
/// cell inside the grid; reading outside the grid always gives `false`.
pub proof fn lemma_set_then_get(before: VoxelGrid, after: VoxelGrid, x: int, y: int, z: int, value: bool)
    requires
        written(before, after, x, y, z, value),
    ensures
        before.in_bounds(x, y, z) ==> after.voxel(x, y, z) == value,
        forall|a: int, b: int, c: int| !after.in_bounds(a, b, c) ==> !#[trigger] after.voxel(a, b, c),
{
}

} // verus!
