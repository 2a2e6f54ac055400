use vstd::prelude::*;
use crate::coords::ChunkCoord;
use crate::grid::VoxelGrid;
use crate::mesher::{build_mesh, is_chunk_mesh_of, ChunkMesh};

verus! {

/// Slot of each face-adjacent neighbour in a neighbour array:
/// -x, +x, -y, +y, -z, +z.
pub const NEG_X: usize = 0;
pub const POS_X: usize = 1;
pub const NEG_Y: usize = 2;
pub const POS_Y: usize = 3;
pub const NEG_Z: usize = 4;
pub const POS_Z: usize = 5;

/// The lattice offset of neighbour slot `s`.
pub open spec fn slot_offset(s: int) -> (int, int, int) {
    if s == 0 {
        (-1, 0, 0)
    } else if s == 1 {
        (1, 0, 0)
    } else if s == 2 {
        (0, -1, 0)
    } else if s == 3 {
        (0, 1, 0)
    } else if s == 4 {
        (0, 0, -1)
    } else {
        (0, 0, 1)
    }
}

/// 1 for an open face, 0 for a closed one.
pub open spec fn open_count(open: bool) -> int {
    if open {
        1
    } else {
        0
    }
}

/// One chunk of the world: its voxels, its place in the chunk lattice, the
/// state of its mesh, and the handle of whatever renders it.
pub struct Chunk {
    pub position: ChunkCoord,
    pub grid: VoxelGrid,
    /// The mesh on screen does not show the current voxels.
    pub dirty: bool,
    /// A mesh build for this chunk is in flight.
    pub building: bool,
    /// A voxel changed after the build in flight took its snapshot.
    pub edited_while_building: bool,
    /// Ticket of the build in flight, or of the last one.
    pub build_ticket: u64,
    /// Opaque handle of the renderable that shows this chunk, if any.
    pub renderable: Option<u64>,
}

impl Chunk {
    pub open spec fn voxels(&self) -> VoxelGrid {
        self.grid
    }

    pub open spec fn is_building(&self) -> bool {
        self.building
    }

    pub open spec fn stale_build(&self) -> bool {
        self.edited_while_building
    }

    pub open spec fn wf(&self) -> bool {
        self.voxels().wf()
    }

    /// A new chunk at `position` whose terrain column `(x, z)` is solid below
    /// `heights[x + z * width]`. It starts dirty, with no renderable and no
    /// build in flight.
    pub fn new(position: ChunkCoord, width: u32, height: u32, depth: u32, heights: &Vec<u32>) -> (r: Chunk)
        requires
            width * height * depth <= usize::MAX,
            heights@.len() == width * depth,
        ensures
            r.wf(),
            r.position == position,
            r.dirty,
            r.renderable is None,
            !r.is_building(),
            r.voxels().spec_width() == width,
            r.voxels().spec_height() == height,
            r.voxels().spec_depth() == depth,
            forall|x: int, y: int, z: int|
                #[trigger] r.voxels().voxel(x, y, z) == (r.voxels().in_bounds(x, y, z) && y
                    < heights@[x + z * width]),
    {
        Chunk {
            position,
            grid: VoxelGrid::from_heights(width, height, depth, heights),
            dirty: true,
            building: false,
            edited_while_building: false,
            build_ticket: 0,
            renderable: None,
        }
    }

    /// A chunk at `position` with the given voxels, dirty, with no renderable
    /// and no build in flight.
    pub fn from_grid(position: ChunkCoord, grid: VoxelGrid) -> (r: Chunk)
        requires
            grid.wf(),
        ensures
            r.wf(),
            r.position == position,
            r.voxels() == grid,
            r.dirty,
            r.renderable is None,
            !r.is_building(),
    {
        Chunk {
            position,
            grid,
            dirty: true,
            building: false,
            edited_while_building: false,
            build_ticket: 0,
            renderable: None,
        }
    }

    pub fn grid(&self) -> (r: &VoxelGrid)
        ensures
            *r == self.voxels(),
    {
        &self.grid
    }

    pub fn is_building_now(&self) -> (r: bool)
        ensures
            r == self.is_building(),
    {
        self.building
    }

    /// Writes one voxel. A write that changes the voxel marks the chunk
    /// dirty, and marks a build in flight as stale; a write that changes
    /// nothing leaves every flag alone. Returns whether the voxel changed.
    pub fn set_voxel(&mut self, x: i32, y: i32, z: i32, is_solid: bool) -> (changed: bool)
        requires
            old(self).wf(),
        ensures
            final(self).wf(),
            final(self).voxels().same_dims(&old(self).voxels()),
            changed == (old(self).voxels().in_bounds(x as int, y as int, z as int)
                && old(self).voxels().voxel(x as int, y as int, z as int) != is_solid),
            forall|a: int, b: int, c: int|
                #[trigger] final(self).voxels().voxel(a, b, c) == if a == x && b == y && c == z
                    && old(self).voxels().in_bounds(a, b, c) {
                    is_solid
                } else {
                    old(self).voxels().voxel(a, b, c)
                },
            final(self).position == old(self).position,
            final(self).renderable == old(self).renderable,
            final(self).dirty == (old(self).dirty || changed),
            final(self).is_building() == old(self).is_building(),
            final(self).stale_build() == (old(self).stale_build() || (changed
                && old(self).is_building())),
            final(self).build_ticket == old(self).build_ticket,
    {
        let changed = self.grid.set(x, y, z, is_solid);
        if changed {
            self.dirty = true;
            if self.building {
                self.edited_while_building = true;
            }
        }
        changed
    }

    /// Empties one voxel: [`Chunk::set_voxel`] with `false`.
    pub fn remove_voxel(&mut self, x: i32, y: i32, z: i32) -> (changed: bool)
        requires
            old(self).wf(),
        ensures
            final(self).wf(),
            final(self).voxels().same_dims(&old(self).voxels()),
            changed == old(self).voxels().voxel(x as int, y as int, z as int),
            forall|a: int, b: int, c: int|
                #[trigger] final(self).voxels().voxel(a, b, c) == (old(self).voxels().voxel(a, b, c)
                    && !(a == x && b == y && c == z)),
            final(self).position == old(self).position,
            final(self).renderable == old(self).renderable,
            final(self).dirty == (old(self).dirty || changed),
            final(self).is_building() == old(self).is_building(),
            final(self).stale_build() == (old(self).stale_build() || (changed
                && old(self).is_building())),
            final(self).build_ticket == old(self).build_ticket,
    {
        self.set_voxel(x, y, z, false)
    }

    /// Whether the voxel at local `(x, y, z)` is solid, looking into the
    /// face-adjacent neighbour when exactly one coordinate lies outside this
    /// chunk. All chunks are taken to share one size; a missing neighbour,
    /// and a position off an edge or corner, count as empty.
    pub open spec fn solid_across(&self, neighbors: Seq<Option<&Chunk>>, x: int, y: int, z: int) -> bool {
        let g = self.voxels();
        let w = g.spec_width() as int;
        let h = g.spec_height() as int;
        let d = g.spec_depth() as int;
        let out_x = x < 0 || x >= w;
        let out_y = y < 0 || y >= h;
        let out_z = z < 0 || z >= d;
        if !out_x && !out_y && !out_z {
            g.voxel(x, y, z)
        } else if out_x && !out_y && !out_z {
            let s = if x < 0 { NEG_X } else { POS_X };
            let nx = if x < 0 { x + w } else { x - w };
            neighbors[s as int] matches Some(n) && n.voxels().voxel(nx, y, z)
        } else if !out_x && out_y && !out_z {
            let s = if y < 0 { NEG_Y } else { POS_Y };
            let ny = if y < 0 { y + h } else { y - h };
            neighbors[s as int] matches Some(n) && n.voxels().voxel(x, ny, z)
        } else if !out_x && !out_y && out_z {
            let s = if z < 0 { NEG_Z } else { POS_Z };
            let nz = if z < 0 { z + d } else { z - d };
            neighbors[s as int] matches Some(n) && n.voxels().voxel(x, y, nz)
        } else {
            false
        }
    }

    /// Cross-chunk solidity query; see [`Chunk::solid_across`].
    pub fn is_voxel_solid(&self, x: i32, y: i32, z: i32, neighbors: &[Option<&Chunk>; 6]) -> (r: bool)
        requires
            self.wf(),
            forall|s: int| 0 <= s < 6 ==> (#[trigger] neighbors@[s] matches Some(n) ==> n.wf()),
        ensures
            r == self.solid_across(neighbors@, x as int, y as int, z as int),
    {
        self.solid_at(x as i64, y as i64, z as i64, neighbors)
    }

    fn solid_at(&self, x: i64, y: i64, z: i64, neighbors: &[Option<&Chunk>; 6]) -> (r: bool)
        requires
            self.wf(),
            i32::MIN - 1 <= x <= i32::MAX + 1,
            i32::MIN - 1 <= y <= i32::MAX + 1,
            i32::MIN - 1 <= z <= i32::MAX + 1,
            forall|s: int| 0 <= s < 6 ==> (#[trigger] neighbors@[s] matches Some(n) ==> n.wf()),
        ensures
            r == self.solid_across(neighbors@, x as int, y as int, z as int),
    {
        let w = self.grid.width() as i64;
        let h = self.grid.height() as i64;
        let d = self.grid.depth() as i64;
        let out_x = x < 0 || x >= w;
        let out_y = y < 0 || y >= h;
        let out_z = z < 0 || z >= d;
        if !out_x && !out_y && !out_z {
            self.grid.cell(x as u32, y as u32, z as u32)
        } else if out_x && !out_y && !out_z {
            let (s, nx) = if x < 0 { (NEG_X, x + w) } else { (POS_X, x - w) };
            match neighbors[s] {
                Some(n) => nx >= 0 && n.grid.cell(nx as u32, y as u32, z as u32),
                None => false,
            }
        } else if !out_x && out_y && !out_z {
            let (s, ny) = if y < 0 { (NEG_Y, y + h) } else { (POS_Y, y - h) };
            match neighbors[s] {
                Some(n) => ny >= 0 && n.grid.cell(x as u32, ny as u32, z as u32),
                None => false,
            }
        } else if !out_x && !out_y && out_z {
            let (s, nz) = if z < 0 { (NEG_Z, z + d) } else { (POS_Z, z - d) };
            match neighbors[s] {
                Some(n) => nz >= 0 && n.grid.cell(x as u32, y as u32, nz as u32),
                None => false,
            }
        } else {
            false
        }
    }

    /// Whether the voxel at `(x, y, z)` has a face open to an empty (or
    /// missing) voxel, looking across chunk borders.
    pub fn is_voxel_visible(&self, x: i32, y: i32, z: i32, neighbors: &[Option<&Chunk>; 6]) -> (r: bool)
        requires
            self.wf(),
            forall|s: int| 0 <= s < 6 ==> (#[trigger] neighbors@[s] matches Some(n) ==> n.wf()),
        ensures
            r == (!self.solid_across(neighbors@, x - 1, y as int, z as int)
                || !self.solid_across(neighbors@, x + 1, y as int, z as int)
                || !self.solid_across(neighbors@, x as int, y - 1, z as int)
                || !self.solid_across(neighbors@, x as int, y + 1, z as int)
                || !self.solid_across(neighbors@, x as int, y as int, z - 1)
                || !self.solid_across(neighbors@, x as int, y as int, z + 1)),
    {
        let open = self.open_faces(x, y, z, neighbors);
        open.0 || open.1 || open.2 || open.3 || open.4 || open.5
    }

    /// The sum of the outward directions of the open faces of voxel
    /// `(x, y, z)`: along each axis, +1 when only the upper face is open, -1
    /// when only the lower one is, 0 otherwise.
    pub fn calculate_normal(&self, x: i32, y: i32, z: i32, neighbors: &[Option<&Chunk>; 6]) -> (r: (i8, i8, i8))
        requires
            self.wf(),
            forall|s: int| 0 <= s < 6 ==> (#[trigger] neighbors@[s] matches Some(n) ==> n.wf()),
        ensures
            r.0 == open_count(!self.solid_across(neighbors@, x + 1, y as int, z as int))
                - open_count(!self.solid_across(neighbors@, x - 1, y as int, z as int)),
            r.1 == open_count(!self.solid_across(neighbors@, x as int, y + 1, z as int))
                - open_count(!self.solid_across(neighbors@, x as int, y - 1, z as int)),
            r.2 == open_count(!self.solid_across(neighbors@, x as int, y as int, z + 1))
                - open_count(!self.solid_across(neighbors@, x as int, y as int, z - 1)),
    {
        let open = self.open_faces(x, y, z, neighbors);
        let nx: i8 = (if open.1 { 1i8 } else { 0i8 }) - (if open.0 { 1i8 } else { 0i8 });
        let ny: i8 = (if open.3 { 1i8 } else { 0i8 }) - (if open.2 { 1i8 } else { 0i8 });
        let nz: i8 = (if open.5 { 1i8 } else { 0i8 }) - (if open.4 { 1i8 } else { 0i8 });
        (nx, ny, nz)
    }

    /// For each face of voxel `(x, y, z)`, in slot order, whether the voxel
    /// across it is not solid.
    fn open_faces(&self, x: i32, y: i32, z: i32, neighbors: &[Option<&Chunk>; 6]) -> (r: (bool, bool, bool, bool, bool, bool))
        requires
            self.wf(),
            forall|s: int| 0 <= s < 6 ==> (#[trigger] neighbors@[s] matches Some(n) ==> n.wf()),
        ensures
            r.0 == !self.solid_across(neighbors@, x - 1, y as int, z as int),
            r.1 == !self.solid_across(neighbors@, x + 1, y as int, z as int),
            r.2 == !self.solid_across(neighbors@, x as int, y - 1, z as int),
            r.3 == !self.solid_across(neighbors@, x as int, y + 1, z as int),
            r.4 == !self.solid_across(neighbors@, x as int, y as int, z - 1),
            r.5 == !self.solid_across(neighbors@, x as int, y as int, z + 1),
    {
        (
            !self.solid_at(x as i64 - 1, y as i64, z as i64, neighbors),
            !self.solid_at(x as i64 + 1, y as i64, z as i64, neighbors),
            !self.solid_at(x as i64, y as i64 - 1, z as i64, neighbors),
            !self.solid_at(x as i64, y as i64 + 1, z as i64, neighbors),
            !self.solid_at(x as i64, y as i64, z as i64 - 1, neighbors),
            !self.solid_at(x as i64, y as i64, z as i64 + 1, neighbors),
        )
    }

    /// Starts a mesh build, tagged `ticket`, when the chunk is dirty and none
    /// is in flight, so that at most one build per chunk runs at a time.
    /// Returns whether it started one.
    pub fn begin_build(&mut self, ticket: u64) -> (started: bool)
        ensures
            started == (old(self).dirty && !old(self).is_building()),
            started ==> *final(self) == (Chunk { building: true, edited_while_building: false, build_ticket: ticket, ..*old(self) }),
            !started ==> *final(self) == *old(self),
    {
        if self.dirty && !self.building {
            self.building = true;
            self.edited_while_building = false;
            self.build_ticket = ticket;
            true
        } else {
            false
        }
    }

    /// Records that the build in flight finished and its mesh is shown. The
    /// chunk is clean afterwards unless a voxel changed while it ran, in which
    /// case it stays dirty and the next build picks the change up. Returns
    /// whether the chunk is clean. Without a build in flight nothing changes
    /// and the result is `false`.
    pub fn finish_build(&mut self) -> (clean: bool)
        ensures
            clean == (old(self).is_building() && !old(self).stale_build()),
            !final(self).is_building(),
            final(self).stale_build() == old(self).stale_build(),
            final(self).dirty == (old(self).dirty && !clean),
            final(self).voxels() == old(self).voxels(),
            final(self).position == old(self).position,
            final(self).renderable == old(self).renderable,
            final(self).build_ticket == old(self).build_ticket,
    {
        if !self.building {
            return false;
        }
        self.building = false;
        if !self.edited_while_building {
            self.dirty = false;
            true
        } else {
            false
        }
    }

    /// The greedy mesh of this chunk's voxels.
    pub fn build_mesh(&self) -> (r: Option<ChunkMesh>)
        requires
            self.wf(),
        ensures
            self.voxels().cell_count() <= crate::mesher::MAX_MESH_BOXES ==> r is Some,
            r matches Some(m) ==> is_chunk_mesh_of(&m, &self.voxels()),
    {
        build_mesh(&self.grid)
    }
}

} // verus!
