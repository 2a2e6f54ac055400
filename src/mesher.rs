use vstd::prelude::*;
use crate::grid::VoxelGrid;

verus! {

/// An axis-aligned box of voxels: origin `(x, y, z)` and extents
/// `(nx, ny, nz)`, all in voxel units.
#[derive(Clone, Copy, Debug, PartialEq, Eq, Structural)]
pub struct VoxelBox {
    pub x: u32,
    pub y: u32,
    pub z: u32,
    pub nx: u32,
    pub ny: u32,
    pub nz: u32,
}

impl VoxelBox {
    pub fn new(x: u32, y: u32, z: u32, nx: u32, ny: u32, nz: u32) -> (r: VoxelBox)
        ensures
            r == (VoxelBox { x, y, z, nx, ny, nz }),
    {
        VoxelBox { x, y, z, nx, ny, nz }
    }

    pub open spec fn contains(&self, a: int, b: int, c: int) -> bool {
        &&& self.x <= a < self.x + self.nx
        &&& self.y <= b < self.y + self.ny
        &&& self.z <= c < self.z + self.nz
    }

    /// The box is non-empty and lies inside `grid`.
    pub open spec fn fits(&self, grid: &VoxelGrid) -> bool {
        &&& self.nx > 0
        &&& self.ny > 0
        &&& self.nz > 0
        &&& self.x + self.nx <= grid.spec_width()
        &&& self.y + self.ny <= grid.spec_height()
        &&& self.z + self.nz <= grid.spec_depth()
    }
}

/// Two boxes share no voxel: they are apart along at least one axis.
pub open spec fn disjoint(p: VoxelBox, q: VoxelBox) -> bool {
    ||| p.x + p.nx <= q.x
    ||| q.x + q.nx <= p.x
    ||| p.y + p.ny <= q.y
    ||| q.y + q.ny <= p.y
    ||| p.z + p.nz <= q.z
    ||| q.z + q.nz <= p.z
}

/// Every voxel of `b` is solid in `grid`.
pub open spec fn box_solid(grid: &VoxelGrid, b: VoxelBox) -> bool {
    forall|x: int, y: int, z: int| #[trigger] b.contains(x, y, z) ==> grid.voxel(x, y, z)
}

/// Some box of `boxes` holds the voxel `(x, y, z)`.
pub open spec fn covered(boxes: Seq<VoxelBox>, x: int, y: int, z: int) -> bool {
    exists|i: int| 0 <= i < boxes.len() && (#[trigger] boxes[i]).contains(x, y, z)
}

/// Each box is non-empty, inside the grid and solid throughout, and no two
/// boxes overlap.
pub open spec fn boxes_valid(grid: &VoxelGrid, boxes: Seq<VoxelBox>) -> bool {
    &&& forall|i: int| 0 <= i < boxes.len() ==> (#[trigger] boxes[i]).fits(grid) && box_solid(grid, boxes[i])
    &&& forall|i: int, j: int|
        0 <= i < boxes.len() && 0 <= j < boxes.len() && i != j ==> disjoint(
            #[trigger] boxes[i],
            #[trigger] boxes[j],
        )
}

/// `boxes` is a decomposition of the solid voxels of `grid`: valid boxes that
/// together cover every solid voxel.
pub open spec fn is_box_cover(grid: &VoxelGrid, boxes: Seq<VoxelBox>) -> bool {
    &&& boxes_valid(grid, boxes)
    &&& forall|x: int, y: int, z: int| #[trigger] grid.voxel(x, y, z) ==> covered(boxes, x, y, z)
}

/// Every cell inside the grid is solid.
pub open spec fn all_solid(grid: &VoxelGrid) -> bool {
    forall|x: int, y: int, z: int| grid.in_bounds(x, y, z) ==> #[trigger] grid.voxel(x, y, z)
}

/// The box that spans the whole grid.
pub open spec fn whole_box(grid: &VoxelGrid) -> VoxelBox {
    VoxelBox {
        x: 0,
        y: 0,
        z: 0,
        nx: grid.spec_width() as u32,
        ny: grid.spec_height() as u32,
        nz: grid.spec_depth() as u32,
    }
}

/// `(a, b, c)` comes before `(x, y, z)` in the scan: x outermost, then y,
/// then z.
pub open spec fn scan_before(a: int, b: int, c: int, x: int, y: int, z: int) -> bool {
    a < x || (a == x && b < y) || (a == x && b == y && c < z)
}

/// Solid and in none of the boxes `prior`.
pub open spec fn open_voxel(grid: &VoxelGrid, prior: Seq<VoxelBox>, x: int, y: int, z: int) -> bool {
    grid.voxel(x, y, z) && !covered(prior, x, y, z)
}

pub open spec fn open_region(grid: &VoxelGrid, prior: Seq<VoxelBox>, r: VoxelBox) -> bool {
    forall|x: int, y: int, z: int| #[trigger] r.contains(x, y, z) ==> open_voxel(grid, prior, x, y, z)
}

/// Box `i` is the one the greedy scan makes after boxes `0..i`: its origin
/// is the first solid voxel in scan order outside those boxes, and it grew
/// along x, then y, then z until the next voxel, row or slab was no longer
/// all solid and outside them, or the grid ended.
pub open spec fn greedy_box(grid: &VoxelGrid, boxes: Seq<VoxelBox>, i: int) -> bool {
    let b = boxes[i];
    let prior = boxes.take(i);
    &&& forall|a: int, c: int, e: int|
        #[trigger] grid.voxel(a, c, e) && scan_before(a, c, e, b.x as int, b.y as int, b.z as int)
            ==> covered(prior, a, c, e)
    &&& b.x + b.nx == grid.spec_width() || !open_voxel(grid, prior, b.x + b.nx, b.y as int, b.z as int)
    &&& b.y + b.ny == grid.spec_height() || !open_region(
        grid,
        prior,
        (VoxelBox { x: b.x, y: (b.y + b.ny) as u32, z: b.z, nx: b.nx, ny: 1, nz: 1 }),
    )
    &&& b.z + b.nz == grid.spec_depth() || !open_region(
        grid,
        prior,
        (VoxelBox { x: b.x, y: b.y, z: (b.z + b.nz) as u32, nx: b.nx, ny: b.ny, nz: 1 }),
    )
}

pub open spec fn is_greedy_scan(grid: &VoxelGrid, boxes: Seq<VoxelBox>) -> bool {
    forall|i: int| 0 <= i < boxes.len() ==> #[trigger] greedy_box(grid, boxes, i)
}

spec fn is_free(grid: &VoxelGrid, claimed: &VoxelGrid, x: int, y: int, z: int) -> bool {
    grid.voxel(x, y, z) && !claimed.voxel(x, y, z)
}

spec fn region_is_free(grid: &VoxelGrid, claimed: &VoxelGrid, b: VoxelBox) -> bool {
    forall|x: int, y: int, z: int| #[trigger] b.contains(x, y, z) ==> is_free(grid, claimed, x, y, z)
}

spec fn claims_match(claimed: &VoxelGrid, boxes: Seq<VoxelBox>) -> bool {
    forall|x: int, y: int, z: int| #[trigger] claimed.voxel(x, y, z) == covered(boxes, x, y, z)
}

proof fn lemma_covered_push(boxes: Seq<VoxelBox>, b: VoxelBox, x: int, y: int, z: int)
    ensures
        covered(boxes.push(b), x, y, z) == (covered(boxes, x, y, z) || b.contains(x, y, z)),
{
    let s = boxes.push(b);
    if covered(s, x, y, z) {
        let i = choose|i: int| 0 <= i < s.len() && (#[trigger] s[i]).contains(x, y, z);
        if i < boxes.len() {
            assert(boxes[i] == s[i]);
        }
    }
    if covered(boxes, x, y, z) {
        let i = choose|i: int| 0 <= i < boxes.len() && (#[trigger] boxes[i]).contains(x, y, z);
        assert(s[i] == boxes[i]);
    }
    if b.contains(x, y, z) {
        assert(s[boxes.len() as int] == b);
    }
}

/// Two boxes that are not apart along any axis share the voxel at the largest
/// of their origins.
proof fn lemma_overlap_witness(p: VoxelBox, q: VoxelBox)
    requires
        !disjoint(p, q),
        p.nx > 0 && p.ny > 0 && p.nz > 0,
        q.nx > 0 && q.ny > 0 && q.nz > 0,
    ensures
        p.contains(
            if p.x >= q.x { p.x as int } else { q.x as int },
            if p.y >= q.y { p.y as int } else { q.y as int },
            if p.z >= q.z { p.z as int } else { q.z as int },
        ),
        q.contains(
            if p.x >= q.x { p.x as int } else { q.x as int },
            if p.y >= q.y { p.y as int } else { q.y as int },
            if p.z >= q.z { p.z as int } else { q.z as int },
        ),
{
}

/// Whether every voxel of `b` is solid in `grid` and not yet in `claimed`.
fn region_free(grid: &VoxelGrid, claimed: &VoxelGrid, b: VoxelBox) -> (r: bool)
    requires
        grid.wf(),
        claimed.wf(),
        b.x + b.nx <= u32::MAX,
        b.y + b.ny <= u32::MAX,
        b.z + b.nz <= u32::MAX,
    ensures
        r == region_is_free(grid, claimed, b),
{
    let mut i = b.x;
    while i < b.x + b.nx
        invariant
            grid.wf(),
            claimed.wf(),
            b.x + b.nx <= u32::MAX,
            b.y + b.ny <= u32::MAX,
            b.z + b.nz <= u32::MAX,
            b.x <= i <= b.x + b.nx,
            forall|x: int, y: int, z: int|
                #[trigger] b.contains(x, y, z) && x < i ==> is_free(grid, claimed, x, y, z),
        decreases b.x + b.nx - i,
    {
        let mut j = b.y;
        while j < b.y + b.ny
            invariant
                grid.wf(),
                claimed.wf(),
                b.x + b.nx <= u32::MAX,
                b.y + b.ny <= u32::MAX,
                b.z + b.nz <= u32::MAX,
                b.x <= i < b.x + b.nx,
                b.y <= j <= b.y + b.ny,
                forall|x: int, y: int, z: int|
                    #[trigger] b.contains(x, y, z) && (x < i || (x == i && y < j)) ==> is_free(
                        grid,
                        claimed,
                        x,
                        y,
                        z,
                    ),
            decreases b.y + b.ny - j,
        {
            let mut k = b.z;
            while k < b.z + b.nz
                invariant
                    grid.wf(),
                    claimed.wf(),
                    b.x + b.nx <= u32::MAX,
                    b.y + b.ny <= u32::MAX,
                    b.z + b.nz <= u32::MAX,
                    b.x <= i < b.x + b.nx,
                    b.y <= j < b.y + b.ny,
                    b.z <= k <= b.z + b.nz,
                    forall|x: int, y: int, z: int|
                        #[trigger] b.contains(x, y, z) && (x < i || (x == i && y < j) || (x == i
                            && y == j && z < k)) ==> is_free(grid, claimed, x, y, z),
                decreases b.z + b.nz - k,
            {
                if !grid.cell(i, j, k) || claimed.cell(i, j, k) {
                    assert(b.contains(i as int, j as int, k as int));
                    return false;
                }
                k = k + 1;
            }
            j = j + 1;
        }
        i = i + 1;
    }
    true
}

/// Marks every voxel of `b` in `claimed`.
fn claim_region(claimed: &mut VoxelGrid, b: VoxelBox)
    requires
        old(claimed).wf(),
        b.fits(old(claimed)),
    ensures
        final(claimed).wf(),
        final(claimed).same_dims(old(claimed)),
        forall|x: int, y: int, z: int|
            #[trigger] final(claimed).voxel(x, y, z) == (old(claimed).voxel(x, y, z) || b.contains(
                x,
                y,
                z,
            )),
{
    let ghost start = *claimed;
    let _ = (claimed.width(), claimed.height(), claimed.depth());
    let mut i = b.x;
    while i < b.x + b.nx
        invariant
            claimed.wf(),
            claimed.same_dims(&start),
            b.fits(&start),
            b.x + b.nx <= u32::MAX,
            b.y + b.ny <= u32::MAX,
            b.z + b.nz <= u32::MAX,
            b.x <= i <= b.x + b.nx,
            forall|x: int, y: int, z: int|
                #[trigger] claimed.voxel(x, y, z) == (start.voxel(x, y, z) || (b.contains(x, y, z)
                    && x < i)),
        decreases b.x + b.nx - i,
    {
        let mut j = b.y;
        while j < b.y + b.ny
            invariant
                claimed.wf(),
                claimed.same_dims(&start),
                b.fits(&start),
                b.x + b.nx <= u32::MAX,
                b.y + b.ny <= u32::MAX,
                b.z + b.nz <= u32::MAX,
                b.x <= i < b.x + b.nx,
                b.y <= j <= b.y + b.ny,
                forall|x: int, y: int, z: int|
                    #[trigger] claimed.voxel(x, y, z) == (start.voxel(x, y, z) || (b.contains(
                        x,
                        y,
                        z,
                    ) && (x < i || (x == i && y < j)))),
            decreases b.y + b.ny - j,
        {
            let mut k = b.z;
            while k < b.z + b.nz
                invariant
                    claimed.wf(),
                    claimed.same_dims(&start),
                    b.fits(&start),
                    b.x + b.nx <= u32::MAX,
                    b.y + b.ny <= u32::MAX,
                    b.z + b.nz <= u32::MAX,
                    b.x <= i < b.x + b.nx,
                    b.y <= j < b.y + b.ny,
                    b.z <= k <= b.z + b.nz,
                    forall|x: int, y: int, z: int|
                        #[trigger] claimed.voxel(x, y, z) == (start.voxel(x, y, z) || (b.contains(
                            x,
                            y,
                            z,
                        ) && (x < i || (x == i && y < j) || (x == i && y == j && z < k)))),
                decreases b.z + b.nz - k,
            {
                claimed.set_cell(i, j, k, true);
                k = k + 1;
            }
            j = j + 1;
        }
        i = i + 1;
    }
}

/// Grows a box from the free voxel `(x, y, z)`: first along x while the next
/// voxel is free, then along y while the whole next row is free, then along z
/// while the whole next slab is free.
fn grow_box(grid: &VoxelGrid, claimed: &VoxelGrid, x: u32, y: u32, z: u32) -> (b: VoxelBox)
    requires
        grid.wf(),
        claimed.wf(),
        claimed.same_dims(grid),
        grid.in_bounds(x as int, y as int, z as int),
        is_free(grid, claimed, x as int, y as int, z as int),
    ensures
        b.x == x && b.y == y && b.z == z,
        b.fits(grid),
        region_is_free(grid, claimed, b),
        b.x + b.nx == grid.spec_width() || !is_free(grid, claimed, b.x + b.nx, y as int, z as int),
        b.y + b.ny == grid.spec_height() || !region_is_free(
            grid,
            claimed,
            (VoxelBox { x, y: (y + b.ny) as u32, z, nx: b.nx, ny: 1, nz: 1 }),
        ),
        b.z + b.nz == grid.spec_depth() || !region_is_free(
            grid,
            claimed,
            (VoxelBox { x, y, z: (z + b.nz) as u32, nx: b.nx, ny: b.ny, nz: 1 }),
        ),
        (forall|a: int, c: int, e: int|
            grid.in_bounds(a, c, e) ==> #[trigger] is_free(grid, claimed, a, c, e)) ==> (b.nx
            == grid.spec_width() - x && b.ny == grid.spec_height() - y && b.nz
            == grid.spec_depth() - z),
{
    let w = grid.width();
    let h = grid.height();
    let d = grid.depth();
    let mut ex = x + 1;
    assert((VoxelBox { x, y, z, nx: 1, ny: 1, nz: 1 }).contains(x as int, y as int, z as int));
    while ex < w && region_free(grid, claimed, VoxelBox::new(ex, y, z, 1, 1, 1))
        invariant
            grid.wf(),
            claimed.wf(),
            w == grid.spec_width(),
            h == grid.spec_height(),
            d == grid.spec_depth(),
            y < h,
            z < d,
            x < ex <= w,
            region_is_free(grid, claimed, (VoxelBox { x, y, z, nx: (ex - x) as u32, ny: 1, nz: 1 })),
        decreases w - ex,
    {
        let ghost run = VoxelBox { x, y, z, nx: (ex - x) as u32, ny: 1, nz: 1 };
        let ghost cell = VoxelBox { x: ex, y, z, nx: 1, ny: 1, nz: 1 };
        ex = ex + 1;
        let ghost grown = VoxelBox { x, y, z, nx: (ex - x) as u32, ny: 1, nz: 1 };
        assert forall|a: int, c: int, e: int| #[trigger] grown.contains(a, c, e) implies is_free(
            grid,
            claimed,
            a,
            c,
            e,
        ) by {
            if a < ex - 1 {
                assert(run.contains(a, c, e));
            } else {
                assert(cell.contains(a, c, e));
            }
        }
    }
    let nx = ex - x;
    proof {
        if ex < w {
            let cell = VoxelBox { x: ex, y, z, nx: 1, ny: 1, nz: 1 };
            if is_free(grid, claimed, ex as int, y as int, z as int) {
                assert forall|a: int, c: int, e: int| #[trigger] cell.contains(a, c, e) implies is_free(grid, claimed, a, c, e) by {
                    assert(a == ex && c == y && e == z);
                }
            }
        }
    }
    let mut ey = y + 1;
    while ey < h && region_free(grid, claimed, VoxelBox::new(x, ey, z, nx, 1, 1))
        invariant
            grid.wf(),
            claimed.wf(),
            w == grid.spec_width(),
            h == grid.spec_height(),
            d == grid.spec_depth(),
            z < d,
            x + nx <= w,
            y < ey <= h,
            nx > 0,
            x + nx <= u32::MAX,
            region_is_free(grid, claimed, (VoxelBox { x, y, z, nx, ny: (ey - y) as u32, nz: 1 })),
        decreases h - ey,
    {
        let ghost slab = VoxelBox { x, y, z, nx, ny: (ey - y) as u32, nz: 1 };
        let ghost row = VoxelBox { x, y: ey, z, nx, ny: 1, nz: 1 };
        ey = ey + 1;
        let ghost grown = VoxelBox { x, y, z, nx, ny: (ey - y) as u32, nz: 1 };
        assert forall|a: int, c: int, e: int| #[trigger] grown.contains(a, c, e) implies is_free(
            grid,
            claimed,
            a,
            c,
            e,
        ) by {
            if c < ey - 1 {
                assert(slab.contains(a, c, e));
            } else {
                assert(row.contains(a, c, e));
            }
        }
    }
    let ny = ey - y;
    let mut ez = z + 1;
    while ez < d && region_free(grid, claimed, VoxelBox::new(x, y, ez, nx, ny, 1))
        invariant
            grid.wf(),
            claimed.wf(),
            w == grid.spec_width(),
            h == grid.spec_height(),
            d == grid.spec_depth(),
            x + nx <= w,
            y + ny <= h,
            z < ez <= d,
            nx > 0,
            ny > 0,
            x + nx <= u32::MAX,
            y + ny <= u32::MAX,
            region_is_free(grid, claimed, (VoxelBox { x, y, z, nx, ny, nz: (ez - z) as u32 })),
        decreases d - ez,
    {
        let ghost block = VoxelBox { x, y, z, nx, ny, nz: (ez - z) as u32 };
        let ghost layer = VoxelBox { x, y, z: ez, nx, ny, nz: 1 };
        ez = ez + 1;
        let ghost grown = VoxelBox { x, y, z, nx, ny, nz: (ez - z) as u32 };
        assert forall|a: int, c: int, e: int| #[trigger] grown.contains(a, c, e) implies is_free(
            grid,
            claimed,
            a,
            c,
            e,
        ) by {
            if e < ez - 1 {
                assert(block.contains(a, c, e));
            } else {
                assert(layer.contains(a, c, e));
            }
        }
    }
    let b = VoxelBox { x, y, z, nx, ny, nz: ez - z };
    proof {
        assert(b.fits(grid));
        if forall|a: int, c: int, e: int|
            grid.in_bounds(a, c, e) ==> #[trigger] is_free(grid, claimed, a, c, e) {
            if ex < w {
                assert((VoxelBox { x: ex, y, z, nx: 1, ny: 1, nz: 1 }).contains(
                    ex as int,
                    y as int,
                    z as int,
                ));
                assert(is_free(grid, claimed, ex as int, y as int, z as int));
            }
            if ey < h {
                assert forall|a: int, c: int, e: int| #[trigger] (VoxelBox { x, y: ey, z, nx, ny: 1, nz: 1 }).contains(a, c, e) implies is_free(grid, claimed, a, c, e) by {
                    assert(grid.in_bounds(a, c, e));
                }
            }
            if ez < d {
                assert forall|a: int, c: int, e: int| #[trigger] (VoxelBox { x, y, z: ez, nx, ny, nz: 1 }).contains(a, c, e) implies is_free(grid, claimed, a, c, e) by {
                    assert(grid.in_bounds(a, c, e));
                }
            }
        }
    }
    b
}

/// A valid box that holds only free voxels overlaps none of the boxes that
/// `claimed` records.
proof fn lemma_fresh_box_disjoint(
    grid: &VoxelGrid,
    claimed: &VoxelGrid,
    boxes: Seq<VoxelBox>,
    b: VoxelBox,
)
    requires
        boxes_valid(grid, boxes),
        claims_match(claimed, boxes),
        b.fits(grid),
        region_is_free(grid, claimed, b),
    ensures
        forall|i: int| 0 <= i < boxes.len() ==> disjoint(#[trigger] boxes[i], b) && disjoint(b, boxes[i]),
{
    assert forall|i: int| 0 <= i < boxes.len() implies disjoint(#[trigger] boxes[i], b) && disjoint(b, boxes[i]) by {
        let p = boxes[i];
        if !disjoint(p, b) {
            assert(p.fits(grid));
            lemma_overlap_witness(p, b);
            let a = if p.x >= b.x { p.x as int } else { b.x as int };
            let c = if p.y >= b.y { p.y as int } else { b.y as int };
            let e = if p.z >= b.z { p.z as int } else { b.z as int };
            assert(covered(boxes, a, c, e));
            assert(claimed.voxel(a, c, e));
            assert(b.contains(a, c, e));
        }
    }
}

/// Splits the solid voxels of `grid` into boxes. The scan visits voxels with
/// x outermost, then y, then z; each solid voxel that no earlier box holds
/// starts a new box, grown as [`grow_box`] describes.
pub fn greedy_boxes(grid: &VoxelGrid) -> (boxes: Vec<VoxelBox>)
    requires
        grid.wf(),
    ensures
        is_box_cover(grid, boxes@),
        is_greedy_scan(grid, boxes@),
        boxes@.len() <= grid.cell_count(),
        all_solid(grid) && grid.spec_width() > 0 && grid.spec_height() > 0 && grid.spec_depth() > 0
            ==> boxes@ == seq![whole_box(grid)],
{
    let w = grid.width();
    let h = grid.height();
    let d = grid.depth();
    proof {
        grid.lemma_cell_count_bound();
    }
    let mut claimed = VoxelGrid::new(w, h, d);
    let mut boxes: Vec<VoxelBox> = Vec::new();
    let ghost full = all_solid(grid) && w > 0 && h > 0 && d > 0;
    let mut x: u32 = 0;
    while x < w
        invariant
            grid.wf(),
            claimed.wf(),
            claimed.same_dims(grid),
            w == grid.spec_width(),
            h == grid.spec_height(),
            d == grid.spec_depth(),
            full == (all_solid(grid) && w > 0 && h > 0 && d > 0),
            x <= w,
            boxes_valid(grid, boxes@),
            is_greedy_scan(grid, boxes@),
            claims_match(&claimed, boxes@),
            forall|a: int, b: int, c: int|
                #[trigger] grid.voxel(a, b, c) && a < x ==> claimed.voxel(a, b, c),
            boxes@.len() <= x * h * d,
            full ==> if x == 0 {
                boxes@.len() == 0
            } else {
                boxes@ == seq![whole_box(grid)]
            },
        decreases w - x,
    {
        let mut y: u32 = 0;
        while y < h
            invariant
                grid.wf(),
                claimed.wf(),
                claimed.same_dims(grid),
                w == grid.spec_width(),
                h == grid.spec_height(),
                d == grid.spec_depth(),
                full == (all_solid(grid) && w > 0 && h > 0 && d > 0),
                x < w,
                y <= h,
                boxes_valid(grid, boxes@),
                is_greedy_scan(grid, boxes@),
                claims_match(&claimed, boxes@),
                forall|a: int, b: int, c: int|
                    #[trigger] grid.voxel(a, b, c) && (a < x || (a == x && b < y)) ==> claimed.voxel(
                        a,
                        b,
                        c,
                    ),
                boxes@.len() <= (x * h + y) * d,
                full ==> if x == 0 && y == 0 {
                    boxes@.len() == 0
                } else {
                    boxes@ == seq![whole_box(grid)]
                },
            decreases h - y,
        {
            let mut z: u32 = 0;
            while z < d
                invariant
                    grid.wf(),
                    claimed.wf(),
                    claimed.same_dims(grid),
                    w == grid.spec_width(),
                    h == grid.spec_height(),
                    d == grid.spec_depth(),
                    full == (all_solid(grid) && w > 0 && h > 0 && d > 0),
                    x < w,
                    y < h,
                    z <= d,
                    boxes_valid(grid, boxes@),
                    is_greedy_scan(grid, boxes@),
                    claims_match(&claimed, boxes@),
                    forall|a: int, b: int, c: int|
                        #[trigger] grid.voxel(a, b, c) && (a < x || (a == x && b < y) || (a == x
                            && b == y && c < z)) ==> claimed.voxel(a, b, c),
                    boxes@.len() <= (x * h + y) * d + z,
                    full ==> if x == 0 && y == 0 && z == 0 {
                        boxes@.len() == 0
                    } else {
                        boxes@ == seq![whole_box(grid)]
                    },
                decreases d - z,
            {
                if grid.cell(x, y, z) && !claimed.cell(x, y, z) {
                    proof {
                        if full {
                            assert forall|a: int, c: int, e: int|
                                grid.in_bounds(a, c, e) implies #[trigger] is_free(
                                grid,
                                &claimed,
                                a,
                                c,
                                e,
                            ) by {
                                if boxes@.len() > 0 {
                                    assert(boxes@[0].contains(x as int, y as int, z as int));
                                    assert(covered(boxes@, x as int, y as int, z as int));
                                }
                                assert(grid.voxel(a, c, e));
                                assert(!claimed.voxel(a, c, e));
                            }
                        }
                    }
                    let b = grow_box(grid, &claimed, x, y, z);
                    proof {
                        lemma_fresh_box_disjoint(grid, &claimed, boxes@, b);
                    }
                    let ghost before = boxes@;
                    let ghost claimed_before = claimed;
                    claim_region(&mut claimed, b);
                    boxes.push(b);
                    proof {
                        assert forall|a: int, c: int, e: int|
                            #[trigger] claimed.voxel(a, c, e) == covered(boxes@, a, c, e) by {
                            lemma_covered_push(before, b, a, c, e);
                            assert(claimed_before.voxel(a, c, e) == covered(before, a, c, e));
                        }
                        assert forall|i: int|
                            0 <= i < boxes@.len() implies (#[trigger] boxes@[i]).fits(grid)
                            && box_solid(grid, boxes@[i]) by {
                            if i < before.len() {
                                assert(boxes@[i] == before[i]);
                            }
                        }
                        assert forall|i: int, j: int|
                            0 <= i < boxes@.len() && 0 <= j < boxes@.len() && i != j implies disjoint(
                            #[trigger] boxes@[i],
                            #[trigger] boxes@[j],
                        ) by {
                            if i < before.len() && j < before.len() {
                                assert(boxes@[i] == before[i]);
                                assert(boxes@[j] == before[j]);
                            } else if i < before.len() {
                                assert(boxes@[i] == before[i]);
                            } else {
                                assert(boxes@[j] == before[j]);
                            }
                        }
                        if full {
                            assert(b == whole_box(grid));
                            assert(boxes@ =~= seq![whole_box(grid)]);
                        }
                        let n = before.len() as int;
                        assert(boxes@.take(n) =~= before);
                        assert forall|a: int, c: int, e: int|
                            #[trigger] is_free(grid, &claimed_before, a, c, e) == open_voxel(grid, before, a, c, e) by {
                            assert(claimed_before.voxel(a, c, e) == covered(before, a, c, e));
                        }
                        assert(greedy_box(grid, boxes@, n)) by {
                            let row = VoxelBox { x: b.x, y: (b.y + b.ny) as u32, z: b.z, nx: b.nx, ny: 1, nz: 1 };
                            let slab = VoxelBox { x: b.x, y: b.y, z: (b.z + b.nz) as u32, nx: b.nx, ny: b.ny, nz: 1 };
                            if open_region(grid, before, row) {
                                assert forall|a: int, c: int, e: int| #[trigger] row.contains(a, c, e) implies is_free(grid, &claimed_before, a, c, e) by {
                                    assert(open_voxel(grid, before, a, c, e));
                                }
                            }
                            if open_region(grid, before, slab) {
                                assert forall|a: int, c: int, e: int| #[trigger] slab.contains(a, c, e) implies is_free(grid, &claimed_before, a, c, e) by {
                                    assert(open_voxel(grid, before, a, c, e));
                                }
                            }
                            assert forall|a: int, c: int, e: int|
                                #[trigger] grid.voxel(a, c, e) && scan_before(a, c, e, b.x as int, b.y as int, b.z as int)
                                    implies covered(before, a, c, e) by {
                                assert(claimed_before.voxel(a, c, e));
                            }
                        }
                        assert forall|i: int| 0 <= i < boxes@.len() implies #[trigger] greedy_box(grid, boxes@, i) by {
                            if i < n {
                                assert(boxes@.take(i) =~= before.take(i));
                                assert(boxes@[i] == before[i]);
                                assert(greedy_box(grid, before, i));
                            }
                        }
                    }
                } else {
                    proof {
                        if full && !(x == 0 && y == 0 && z == 0) {
                            assert(boxes@[0].contains(x as int, y as int, z as int));
                        }
                    }
                }
                z = z + 1;
            }
            assert((x * h + y) * d + d == (x * h + (y + 1)) * d) by (nonlinear_arith);
            y = y + 1;
        }
        assert((x * h + h) * d == (x + 1) * h * d) by (nonlinear_arith);
        x = x + 1;
    }
    boxes
}

/// Coverage is exact: a voxel lies in some box exactly when it is solid, and
/// no voxel lies in two boxes.
pub proof fn lemma_cover_reconstructs_grid(grid: &VoxelGrid, boxes: Seq<VoxelBox>)
    requires
        is_box_cover(grid, boxes),
    ensures
        forall|x: int, y: int, z: int| #[trigger] covered(boxes, x, y, z) == grid.voxel(x, y, z),
        forall|i: int, j: int, x: int, y: int, z: int|
            0 <= i < boxes.len() && 0 <= j < boxes.len() && #[trigger] boxes[i].contains(x, y, z)
                && #[trigger] boxes[j].contains(x, y, z) ==> i == j,
{
    assert forall|x: int, y: int, z: int| #[trigger] covered(boxes, x, y, z) == grid.voxel(x, y, z) by {
        if covered(boxes, x, y, z) {
            let i = choose|i: int| 0 <= i < boxes.len() && (#[trigger] boxes[i]).contains(x, y, z);
            assert(box_solid(grid, boxes[i]));
        }
    }
    assert forall|i: int, j: int, x: int, y: int, z: int|
        0 <= i < boxes.len() && 0 <= j < boxes.len() && #[trigger] boxes[i].contains(x, y, z)
            && #[trigger] boxes[j].contains(x, y, z) implies i == j by {
        if i != j {
            assert(disjoint(boxes[i], boxes[j]));
        }
    }
}

/// A grid without solid voxels has no boxes.
pub proof fn lemma_empty_grid_no_boxes(grid: &VoxelGrid, boxes: Seq<VoxelBox>)
    requires
        is_box_cover(grid, boxes),
        forall|x: int, y: int, z: int| !#[trigger] grid.voxel(x, y, z),
    ensures
        boxes.len() == 0,
{
    if boxes.len() > 0 {
        let b = boxes[0];
        assert(b.fits(grid) && box_solid(grid, b));
        assert(b.contains(b.x as int, b.y as int, b.z as int));
        assert(grid.voxel(b.x as int, b.y as int, b.z as int));
    }
}

/// The six faces of a box, each named by its outward normal.
#[derive(Clone, Copy, Debug, PartialEq, Eq, Structural)]
pub enum Face {
    NegX,
    PosX,
    NegY,
    PosY,
    NegZ,
    PosZ,
}

/// The faces in emission order.
pub open spec fn face_at(f: int) -> Face {
    if f == 0 {
        Face::NegX
    } else if f == 1 {
        Face::PosX
    } else if f == 2 {
        Face::NegY
    } else if f == 3 {
        Face::PosY
    } else if f == 4 {
        Face::NegZ
    } else {
        Face::PosZ
    }
}

impl Face {
    pub open spec fn spec_normal(self) -> (int, int, int) {
        match self {
            Face::NegX => (-1, 0, 0),
            Face::PosX => (1, 0, 0),
            Face::NegY => (0, -1, 0),
            Face::PosY => (0, 1, 0),
            Face::NegZ => (0, 0, -1),
            Face::PosZ => (0, 0, 1),
        }
    }

    /// The outward unit normal of the face.
    pub fn normal(&self) -> (r: (i8, i8, i8))
        ensures
            (r.0 as int, r.1 as int, r.2 as int) == self.spec_normal(),
    {
        match self {
            Face::NegX => (-1, 0, 0),
            Face::PosX => (1, 0, 0),
            Face::NegY => (0, -1, 0),
            Face::PosY => (0, 1, 0),
            Face::NegZ => (0, 0, -1),
            Face::PosZ => (0, 0, 1),
        }
    }
}

/// Corner `k` (0 to 3) of face `f` of box `b`. The corners run
/// counter-clockwise as seen from outside the box.
pub open spec fn face_corner(b: VoxelBox, f: Face, k: int) -> (int, int, int) {
    let x0 = b.x as int;
    let y0 = b.y as int;
    let z0 = b.z as int;
    let x1 = b.x + b.nx;
    let y1 = b.y + b.ny;
    let z1 = b.z + b.nz;
    match f {
        Face::NegX => if k == 0 { (x0, y0, z0) } else if k == 1 { (x0, y0, z1) } else if k == 2 { (x0, y1, z1) } else { (x0, y1, z0) },
        Face::PosX => if k == 0 { (x1, y0, z0) } else if k == 1 { (x1, y1, z0) } else if k == 2 { (x1, y1, z1) } else { (x1, y0, z1) },
        Face::NegY => if k == 0 { (x0, y0, z0) } else if k == 1 { (x1, y0, z0) } else if k == 2 { (x1, y0, z1) } else { (x0, y0, z1) },
        Face::PosY => if k == 0 { (x0, y1, z0) } else if k == 1 { (x0, y1, z1) } else if k == 2 { (x1, y1, z1) } else { (x1, y1, z0) },
        Face::NegZ => if k == 0 { (x0, y0, z0) } else if k == 1 { (x0, y1, z0) } else if k == 2 { (x1, y1, z0) } else { (x1, y0, z0) },
        Face::PosZ => if k == 0 { (x0, y0, z1) } else if k == 1 { (x1, y0, z1) } else if k == 2 { (x1, y1, z1) } else { (x0, y1, z1) },
    }
}

/// Texture coordinate of corner `k` of a face: the unit square, in the same
/// order as the corners.
pub open spec fn corner_uv(k: int) -> (int, int) {
    if k == 0 {
        (0, 0)
    } else if k == 1 {
        (1, 0)
    } else if k == 2 {
        (1, 1)
    } else {
        (0, 1)
    }
}

/// Which corner of a face each of its six indices names: two triangles,
/// `0 1 2` and `0 2 3`, both counter-clockwise from outside.
pub open spec fn quad_corner(t: int) -> int {
    if t < 3 {
        t
    } else if t == 3 {
        0
    } else {
        t - 2
    }
}

/// Cross product of the edges from corner `i` to corners `j` and `k` of face
/// `f` of box `b`.
pub open spec fn corner_cross(b: VoxelBox, f: Face, i: int, j: int, k: int) -> (int, int, int) {
    let a = face_corner(b, f, i);
    let p = face_corner(b, f, j);
    let q = face_corner(b, f, k);
    let u = (p.0 - a.0, p.1 - a.1, p.2 - a.2);
    let w = (q.0 - a.0, q.1 - a.1, q.2 - a.2);
    (u.1 * w.2 - u.2 * w.1, u.2 * w.0 - u.0 * w.2, u.0 * w.1 - u.1 * w.0)
}

/// Points the same way as the face normal `n`, with positive length.
pub open spec fn along_normal(c: (int, int, int), n: (int, int, int)) -> bool {
    &&& c.0 * n.0 + c.1 * n.1 + c.2 * n.2 > 0
    &&& n.0 == 0 ==> c.0 == 0
    &&& n.1 == 0 ==> c.1 == 0
    &&& n.2 == 0 ==> c.2 == 0
}

/// Both triangles of every face of a non-empty box wind counter-clockwise
/// as seen from outside: their normals point along the face's outward normal.
pub proof fn lemma_faces_wind_outward(b: VoxelBox, f: Face)
    requires
        b.nx > 0,
        b.ny > 0,
        b.nz > 0,
    ensures
        along_normal(corner_cross(b, f, 0, 1, 2), f.spec_normal()),
        along_normal(corner_cross(b, f, 0, 2, 3), f.spec_normal()),
{
    let dx = b.nx as int;
    let dy = b.ny as int;
    let dz = b.nz as int;
    assert(dx * dy > 0 && dy * dz > 0 && dx * dz > 0) by (nonlinear_arith)
        requires dx > 0, dy > 0, dz > 0;
    let c1 = corner_cross(b, f, 0, 1, 2);
    let c2 = corner_cross(b, f, 0, 2, 3);
    match f {
        Face::NegX => {
            assert(c1 == (-(dy * dz), 0int, 0int) && c2 == (-(dy * dz), 0int, 0int)) by (nonlinear_arith)
                requires c1 == corner_cross(b, f, 0, 1, 2), c2 == corner_cross(b, f, 0, 2, 3), f == Face::NegX, dx == b.nx, dy == b.ny, dz == b.nz;
        },
        Face::PosX => {
            assert(c1 == (dy * dz, 0int, 0int) && c2 == (dy * dz, 0int, 0int)) by (nonlinear_arith)
                requires c1 == corner_cross(b, f, 0, 1, 2), c2 == corner_cross(b, f, 0, 2, 3), f == Face::PosX, dx == b.nx, dy == b.ny, dz == b.nz;
        },
        Face::NegY => {
            assert(c1 == (0int, -(dx * dz), 0int) && c2 == (0int, -(dx * dz), 0int)) by (nonlinear_arith)
                requires c1 == corner_cross(b, f, 0, 1, 2), c2 == corner_cross(b, f, 0, 2, 3), f == Face::NegY, dx == b.nx, dy == b.ny, dz == b.nz;
        },
        Face::PosY => {
            assert(c1 == (0int, dx * dz, 0int) && c2 == (0int, dx * dz, 0int)) by (nonlinear_arith)
                requires c1 == corner_cross(b, f, 0, 1, 2), c2 == corner_cross(b, f, 0, 2, 3), f == Face::PosY, dx == b.nx, dy == b.ny, dz == b.nz;
        },
        Face::NegZ => {
            assert(c1 == (0int, 0int, -(dx * dy)) && c2 == (0int, 0int, -(dx * dy))) by (nonlinear_arith)
                requires c1 == corner_cross(b, f, 0, 1, 2), c2 == corner_cross(b, f, 0, 2, 3), f == Face::NegZ, dx == b.nx, dy == b.ny, dz == b.nz;
        },
        Face::PosZ => {
            assert(c1 == (0int, 0int, dx * dy) && c2 == (0int, 0int, dx * dy)) by (nonlinear_arith)
                requires c1 == corner_cross(b, f, 0, 1, 2), c2 == corner_cross(b, f, 0, 2, 3), f == Face::PosZ, dx == b.nx, dy == b.ny, dz == b.nz;
        },
    }
}

/// One vertex of a mesh: position in voxel units, the face it belongs to (which
/// gives its normal) and its texture coordinate.
#[derive(Clone, Copy, Debug, PartialEq, Eq, Structural)]
pub struct MeshVertex {
    pub x: u32,
    pub y: u32,
    pub z: u32,
    pub face: Face,
    pub u: u8,
    pub v: u8,
}

pub open spec fn vertex_matches(vert: MeshVertex, b: VoxelBox, f: Face, k: int) -> bool {
    &&& (vert.x as int, vert.y as int, vert.z as int) == face_corner(b, f, k)
    &&& vert.face == f
    &&& (vert.u as int, vert.v as int) == corner_uv(k)
}

/// A triangle mesh: a vertex list and, three per triangle, indices into it.
pub struct MeshData {
    pub vertices: Vec<MeshVertex>,
    pub indices: Vec<u32>,
}

/// Box extents that keep every corner within `u32`.
pub open spec fn corners_fit(boxes: Seq<VoxelBox>) -> bool {
    forall|i: int|
        0 <= i < boxes.len() ==> (#[trigger] boxes[i]).x + boxes[i].nx <= u32::MAX && boxes[i].y
            + boxes[i].ny <= u32::MAX && boxes[i].z + boxes[i].nz <= u32::MAX
}

/// The mesh of `boxes`: box `i` gives the 24 vertices from `24 * i` on, four
/// per face in the order of [`face_at`], and the 36 indices from `36 * i` on,
/// six per face.
pub open spec fn is_mesh_of(mesh: &MeshData, boxes: Seq<VoxelBox>) -> bool {
    &&& mesh.vertices@.len() == 24 * boxes.len()
    &&& mesh.indices@.len() == 36 * boxes.len()
    &&& forall|i: int, f: int, k: int|
        0 <= i < boxes.len() && 0 <= f < 6 && 0 <= k < 4 ==> vertex_matches(
            #[trigger] mesh.vertices@[24 * i + 4 * f + k],
            boxes[i],
            face_at(f),
            k,
        )
    &&& forall|i: int, f: int, t: int|
        0 <= i < boxes.len() && 0 <= f < 6 && 0 <= t < 6 ==> #[trigger] mesh.indices@[36 * i + 6
            * f + t] == 24 * i + 4 * f + quad_corner(t)
}

fn face_vertex(b: VoxelBox, f: Face, k: u32) -> (r: MeshVertex)
    requires
        k < 4,
        b.x + b.nx <= u32::MAX,
        b.y + b.ny <= u32::MAX,
        b.z + b.nz <= u32::MAX,
    ensures
        vertex_matches(r, b, f, k as int),
{
    let x0 = b.x;
    let y0 = b.y;
    let z0 = b.z;
    let x1 = b.x + b.nx;
    let y1 = b.y + b.ny;
    let z1 = b.z + b.nz;
    let (x, y, z) = match f {
        Face::NegX => if k == 0 { (x0, y0, z0) } else if k == 1 { (x0, y0, z1) } else if k == 2 { (x0, y1, z1) } else { (x0, y1, z0) },
        Face::PosX => if k == 0 { (x1, y0, z0) } else if k == 1 { (x1, y1, z0) } else if k == 2 { (x1, y1, z1) } else { (x1, y0, z1) },
        Face::NegY => if k == 0 { (x0, y0, z0) } else if k == 1 { (x1, y0, z0) } else if k == 2 { (x1, y0, z1) } else { (x0, y0, z1) },
        Face::PosY => if k == 0 { (x0, y1, z0) } else if k == 1 { (x0, y1, z1) } else if k == 2 { (x1, y1, z1) } else { (x1, y1, z0) },
        Face::NegZ => if k == 0 { (x0, y0, z0) } else if k == 1 { (x0, y1, z0) } else if k == 2 { (x1, y1, z0) } else { (x1, y0, z0) },
        Face::PosZ => if k == 0 { (x0, y0, z1) } else if k == 1 { (x1, y0, z1) } else if k == 2 { (x1, y1, z1) } else { (x0, y1, z1) },
    };
    let (u, v): (u8, u8) = if k == 0 {
        (0, 0)
    } else if k == 1 {
        (1, 0)
    } else if k == 2 {
        (1, 1)
    } else {
        (0, 1)
    };
    MeshVertex { x, y, z, face: f, u, v }
}

fn face_from_index(f: u32) -> (r: Face)
    requires
        f < 6,
    ensures
        r == face_at(f as int),
{
    if f == 0 {
        Face::NegX
    } else if f == 1 {
        Face::PosX
    } else if f == 2 {
        Face::NegY
    } else if f == 3 {
        Face::PosY
    } else if f == 4 {
        Face::NegZ
    } else {
        Face::PosZ
    }
}

/// Emits the triangle mesh of `boxes`: six quads per box, with outward
/// normals, texture coordinates over the unit square, and two triangles per
/// quad.
pub fn mesh_from_boxes(boxes: &Vec<VoxelBox>) -> (mesh: MeshData)
    requires
        24 * boxes@.len() <= u32::MAX,
        corners_fit(boxes@),
    ensures
        is_mesh_of(&mesh, boxes@),
{
    let mut vertices: Vec<MeshVertex> = Vec::new();
    let mut indices: Vec<u32> = Vec::new();
    let mut i: usize = 0;
    while i < boxes.len()
        invariant
            24 * boxes@.len() <= u32::MAX,
            corners_fit(boxes@),
            i <= boxes@.len(),
            vertices@.len() == 24 * i,
            indices@.len() == 36 * i,
            forall|bi: int, f: int, k: int|
                0 <= bi < i && 0 <= f < 6 && 0 <= k < 4 ==> vertex_matches(
                    #[trigger] vertices@[24 * bi + 4 * f + k],
                    boxes@[bi],
                    face_at(f),
                    k,
                ),
            forall|bi: int, f: int, t: int|
                0 <= bi < i && 0 <= f < 6 && 0 <= t < 6 ==> #[trigger] indices@[36 * bi + 6 * f
                    + t] == 24 * bi + 4 * f + quad_corner(t),
        decreases boxes@.len() - i,
    {
        let b = boxes[i];
        assert(b.x + b.nx <= u32::MAX && b.y + b.ny <= u32::MAX && b.z + b.nz <= u32::MAX);
        let mut f: u32 = 0;
        while f < 6
            invariant
                24 * boxes@.len() <= u32::MAX,
                corners_fit(boxes@),
                i < boxes@.len(),
                b == boxes@[i as int],
                b.x + b.nx <= u32::MAX,
                b.y + b.ny <= u32::MAX,
                b.z + b.nz <= u32::MAX,
                f <= 6,
                vertices@.len() == 24 * i + 4 * f,
                indices@.len() == 36 * i + 6 * f,
                forall|bi: int, g: int, k: int|
                    0 <= bi <= i && 0 <= g < 6 && 0 <= k < 4 && 24 * bi + 4 * g + k < vertices@.len()
                        ==> vertex_matches(
                        #[trigger] vertices@[24 * bi + 4 * g + k],
                        boxes@[bi],
                        face_at(g),
                        k,
                    ),
                forall|bi: int, g: int, t: int|
                    0 <= bi <= i && 0 <= g < 6 && 0 <= t < 6 && 36 * bi + 6 * g + t < indices@.len()
                        ==> #[trigger] indices@[36 * bi + 6 * g + t] == 24 * bi + 4 * g + quad_corner(t),
            decreases 6 - f,
        {
            let face = face_from_index(f);
            let base: u32 = (24 * i) as u32 + 4 * f;
            let ghost v0 = vertices@;
            let ghost i0 = indices@;
            vertices.push(face_vertex(b, face, 0));
            vertices.push(face_vertex(b, face, 1));
            vertices.push(face_vertex(b, face, 2));
            vertices.push(face_vertex(b, face, 3));
            indices.push(base);
            indices.push(base + 1);
            indices.push(base + 2);
            indices.push(base);
            indices.push(base + 2);
            indices.push(base + 3);
            proof {
                assert forall|bi: int, g: int, k: int|
                    0 <= bi <= i && 0 <= g < 6 && 0 <= k < 4 && 24 * bi + 4 * g + k < vertices@.len()
                        implies vertex_matches(
                        #[trigger] vertices@[24 * bi + 4 * g + k],
                        boxes@[bi],
                        face_at(g),
                        k,
                    ) by {
                    if 24 * bi + 4 * g + k < v0.len() {
                        assert(vertices@[24 * bi + 4 * g + k] == v0[24 * bi + 4 * g + k]);
                    } else {
                        assert(bi == i && g == f);
                    }
                }
                assert forall|bi: int, g: int, t: int|
                    0 <= bi <= i && 0 <= g < 6 && 0 <= t < 6 && 36 * bi + 6 * g + t < indices@.len()
                        implies #[trigger] indices@[36 * bi + 6 * g + t] == 24 * bi + 4 * g
                        + quad_corner(t) by {
                    if 36 * bi + 6 * g + t < i0.len() {
                        assert(indices@[36 * bi + 6 * g + t] == i0[36 * bi + 6 * g + t]);
                    } else {
                        assert(bi == i && g == f);
                    }
                }
            }
            f = f + 1;
        }
        i = i + 1;
    }
    MeshData { vertices, indices }
}

/// Most boxes whose mesh indices still fit in `u32`: 24 vertices each.
pub const MAX_MESH_BOXES: usize = 178956970;

/// The result of meshing a grid: its boxes and the mesh emitted from them.
pub struct ChunkMesh {
    pub boxes: Vec<VoxelBox>,
    pub mesh: MeshData,
}

/// What [`build_mesh`] promises of its result.
pub open spec fn is_chunk_mesh_of(m: &ChunkMesh, grid: &VoxelGrid) -> bool {
    &&& is_box_cover(grid, m.boxes@)
    &&& is_greedy_scan(grid, m.boxes@)
    &&& is_mesh_of(&m.mesh, m.boxes@)
    &&& all_solid(grid) && grid.spec_width() > 0 && grid.spec_height() > 0 && grid.spec_depth() > 0
        ==> m.boxes@ == seq![whole_box(grid)]
}

/// Greedy boxes of `grid` and their triangle mesh. `None` only when the grid
/// needs more boxes than `u32` mesh indices can address.
pub fn build_mesh(grid: &VoxelGrid) -> (r: Option<ChunkMesh>)
    requires
        grid.wf(),
    ensures
        grid.cell_count() <= MAX_MESH_BOXES ==> r is Some,
        r matches Some(m) ==> is_chunk_mesh_of(&m, grid),
{
    let w = grid.width();
    let h = grid.height();
    let d = grid.depth();
    let boxes = greedy_boxes(grid);
    if boxes.len() > MAX_MESH_BOXES {
        return None;
    }
    assert(corners_fit(boxes@)) by {
        assert forall|i: int| 0 <= i < boxes@.len() implies (#[trigger] boxes@[i]).x
            + boxes@[i].nx <= u32::MAX && boxes@[i].y + boxes@[i].ny <= u32::MAX && boxes@[i].z
            + boxes@[i].nz <= u32::MAX by {
            assert(boxes@[i].fits(grid));
        }
    }
    let mesh = mesh_from_boxes(&boxes);
    Some(ChunkMesh { boxes, mesh })
}

/// An all-empty grid gives no boxes and an empty mesh.
pub proof fn lemma_empty_grid_empty_mesh(grid: &VoxelGrid, m: &ChunkMesh)
    requires
        is_chunk_mesh_of(m, grid),
        forall|x: int, y: int, z: int| !#[trigger] grid.voxel(x, y, z),
    ensures
        m.boxes@.len() == 0,
        m.mesh.vertices@.len() == 0,
        m.mesh.indices@.len() == 0,
{
    lemma_empty_grid_no_boxes(grid, m.boxes@);
}

/// Every voxel of box `i` of a valid box list is solid and in none of the
/// boxes before it.
proof fn lemma_box_cells_open(grid: &VoxelGrid, p: Seq<VoxelBox>, i: int, x: int, y: int, z: int)
    requires
        boxes_valid(grid, p),
        0 <= i < p.len(),
        p[i].contains(x, y, z),
    ensures
        open_voxel(grid, p.take(i), x, y, z),
{
    assert(box_solid(grid, p[i]));
    if covered(p.take(i), x, y, z) {
        let j = choose|j: int| 0 <= j < p.take(i).len() && (#[trigger] p.take(i)[j]).contains(x, y, z);
        assert(p.take(i)[j] == p[j]);
        assert(disjoint(p[j], p[i]));
    }
}

/// Two greedy decompositions that agree on their first `i` boxes agree on
/// box `i` as well.
proof fn lemma_greedy_step_unique(grid: &VoxelGrid, p: Seq<VoxelBox>, q: Seq<VoxelBox>, i: int)
    requires
        boxes_valid(grid, p),
        boxes_valid(grid, q),
        is_greedy_scan(grid, p),
        is_greedy_scan(grid, q),
        0 <= i < p.len(),
        i < q.len(),
        p.take(i) == q.take(i),
    ensures
        p[i] == q[i],
{
    let prior = p.take(i);
    let a = p[i];
    let b = q[i];
    grid.lemma_dims_fit();
    assert(greedy_box(grid, p, i));
    assert(greedy_box(grid, q, i));
    assert(a.fits(grid) && b.fits(grid));
    assert(a.contains(a.x as int, a.y as int, a.z as int));
    assert(b.contains(b.x as int, b.y as int, b.z as int));
    lemma_box_cells_open(grid, p, i, a.x as int, a.y as int, a.z as int);
    lemma_box_cells_open(grid, q, i, b.x as int, b.y as int, b.z as int);
    // Same origin: each is the first open voxel in scan order.
    if scan_before(b.x as int, b.y as int, b.z as int, a.x as int, a.y as int, a.z as int) {
        assert(grid.voxel(b.x as int, b.y as int, b.z as int));
    }
    if scan_before(a.x as int, a.y as int, a.z as int, b.x as int, b.y as int, b.z as int) {
        assert(grid.voxel(a.x as int, a.y as int, a.z as int));
    }
    assert(a.x == b.x && a.y == b.y && a.z == b.z);
    // Same run along x.
    if a.nx < b.nx {
        assert(b.contains(a.x + a.nx, a.y as int, a.z as int));
        lemma_box_cells_open(grid, q, i, a.x + a.nx, a.y as int, a.z as int);
    }
    if b.nx < a.nx {
        assert(a.contains(b.x + b.nx, b.y as int, b.z as int));
        lemma_box_cells_open(grid, p, i, b.x + b.nx, b.y as int, b.z as int);
    }
    assert(a.nx == b.nx);
    // Same extent along y.
    if a.ny < b.ny {
        let row = VoxelBox { x: a.x, y: (a.y + a.ny) as u32, z: a.z, nx: a.nx, ny: 1, nz: 1 };
        assert forall|x: int, y: int, z: int| #[trigger] row.contains(x, y, z) implies open_voxel(grid, prior, x, y, z) by {
            assert(b.contains(x, y, z));
            lemma_box_cells_open(grid, q, i, x, y, z);
        }
    }
    if b.ny < a.ny {
        let row = VoxelBox { x: b.x, y: (b.y + b.ny) as u32, z: b.z, nx: b.nx, ny: 1, nz: 1 };
        assert forall|x: int, y: int, z: int| #[trigger] row.contains(x, y, z) implies open_voxel(grid, prior, x, y, z) by {
            assert(a.contains(x, y, z));
            lemma_box_cells_open(grid, p, i, x, y, z);
        }
    }
    assert(a.ny == b.ny);
    // Same extent along z.
    if a.nz < b.nz {
        let slab = VoxelBox { x: a.x, y: a.y, z: (a.z + a.nz) as u32, nx: a.nx, ny: a.ny, nz: 1 };
        assert forall|x: int, y: int, z: int| #[trigger] slab.contains(x, y, z) implies open_voxel(grid, prior, x, y, z) by {
            assert(b.contains(x, y, z));
            lemma_box_cells_open(grid, q, i, x, y, z);
        }
    }
    if b.nz < a.nz {
        let slab = VoxelBox { x: b.x, y: b.y, z: (b.z + b.nz) as u32, nx: b.nx, ny: b.ny, nz: 1 };
        assert forall|x: int, y: int, z: int| #[trigger] slab.contains(x, y, z) implies open_voxel(grid, prior, x, y, z) by {
            assert(a.contains(x, y, z));
            lemma_box_cells_open(grid, p, i, x, y, z);
        }
    }
    assert(a.nz == b.nz);
}

proof fn lemma_greedy_prefix_unique(grid: &VoxelGrid, p: Seq<VoxelBox>, q: Seq<VoxelBox>, i: int)
    requires
        boxes_valid(grid, p),
        boxes_valid(grid, q),
        is_greedy_scan(grid, p),
        is_greedy_scan(grid, q),
        0 <= i <= p.len(),
        i <= q.len(),
    ensures
        p.take(i) == q.take(i),
    decreases i,
{
    if i > 0 {
        lemma_greedy_prefix_unique(grid, p, q, i - 1);
        lemma_greedy_step_unique(grid, p, q, i - 1);
        assert(p.take(i) =~= p.take(i - 1).push(p[i - 1]));
        assert(q.take(i) =~= q.take(i - 1).push(q[i - 1]));
    } else {
        assert(p.take(0) =~= q.take(0));
    }
}

/// A cover of the grid cannot end before another cover built by the same
/// greedy rule: the other's next box would start at a voxel already covered.
proof fn lemma_greedy_no_extra_box(grid: &VoxelGrid, p: Seq<VoxelBox>, q: Seq<VoxelBox>)
    requires
        is_box_cover(grid, p),
        boxes_valid(grid, q),
        q.len() >= p.len(),
        q.take(p.len() as int) == p,
    ensures
        q.len() == p.len(),
{
    if q.len() == p.len() {
        return;
    }
    let n = p.len() as int;
    let b = q[n];
    assert(b.fits(grid) && box_solid(grid, b));
    assert(b.contains(b.x as int, b.y as int, b.z as int));
    assert(grid.voxel(b.x as int, b.y as int, b.z as int));
    assert(covered(p, b.x as int, b.y as int, b.z as int));
    let j = choose|j: int| 0 <= j < p.len() && (#[trigger] p[j]).contains(b.x as int, b.y as int, b.z as int);
    assert(q.take(n)[j] == q[j]);
    assert(disjoint(q[j], q[n]));
}

/// The greedy decomposition is determined by the voxels alone: two results of
/// the scan on the same grid are the same box list, and so, box by box, the
/// same mesh.
pub proof fn lemma_greedy_deterministic(grid: &VoxelGrid, m1: &ChunkMesh, m2: &ChunkMesh)
    requires
        is_chunk_mesh_of(m1, grid),
        is_chunk_mesh_of(m2, grid),
    ensures
        m1.boxes@ == m2.boxes@,
        m1.mesh.vertices@ == m2.mesh.vertices@,
        m1.mesh.indices@ == m2.mesh.indices@,
{
    let p = m1.boxes@;
    let q = m2.boxes@;
    if p.len() <= q.len() {
        lemma_greedy_prefix_unique(grid, p, q, p.len() as int);
        assert(p.take(p.len() as int) =~= p);
        lemma_greedy_no_extra_box(grid, p, q);
        assert(q.take(p.len() as int) =~= q);
    } else {
        lemma_greedy_prefix_unique(grid, p, q, q.len() as int);
        assert(q.take(q.len() as int) =~= q);
        lemma_greedy_no_extra_box(grid, q, p);
    }
    assert(p == q);
    lemma_mesh_unique(&m1.mesh, &m2.mesh, p);
}

/// Two meshes of the same boxes are the same mesh.
proof fn lemma_mesh_unique(a: &MeshData, b: &MeshData, boxes: Seq<VoxelBox>)
    requires
        is_mesh_of(a, boxes),
        is_mesh_of(b, boxes),
    ensures
        a.vertices@ == b.vertices@,
        a.indices@ == b.indices@,
{
    assert forall|t: int| 0 <= t < a.vertices@.len() implies a.vertices@[t] == b.vertices@[t] by {
        let i = t / 24;
        let f = (t % 24) / 4;
        let k = t % 4;
        assert(t == 24 * i + 4 * f + k && 0 <= i < boxes.len() && 0 <= f < 6 && 0 <= k < 4) by (nonlinear_arith)
            requires 0 <= t < 24 * boxes.len(), i == t / 24, f == (t % 24) / 4, k == t % 4;
        assert(vertex_matches(a.vertices@[24 * i + 4 * f + k], boxes[i], face_at(f), k));
        assert(vertex_matches(b.vertices@[24 * i + 4 * f + k], boxes[i], face_at(f), k));
    }
    assert forall|t: int| 0 <= t < a.indices@.len() implies a.indices@[t] == b.indices@[t] by {
        let i = t / 36;
        let f = (t % 36) / 6;
        let u = t % 6;
        assert(t == 36 * i + 6 * f + u && 0 <= i < boxes.len() && 0 <= f < 6 && 0 <= u < 6) by (nonlinear_arith)
            requires 0 <= t < 36 * boxes.len(), i == t / 36, f == (t % 36) / 6, u == t % 6;
        assert(a.indices@[36 * i + 6 * f + u] == 24 * i + 4 * f + quad_corner(u));
        assert(b.indices@[36 * i + 6 * f + u] == 24 * i + 4 * f + quad_corner(u));
    }
    assert(a.vertices@ =~= b.vertices@);
    assert(a.indices@ =~= b.indices@);
}

} // verus!
