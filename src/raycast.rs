use vstd::prelude::*;
use crate::coords::{abs, cell_of, floor_div, floor_mod, offset_in_cell, ChunkCoord};
use crate::mesher::Face;
use crate::store::ChunkStore;
use crate::chunk::Chunk;

verus! {

/// A ray marched in fixed steps, in fixed-point world units: `units` of them
/// make one voxel. The samples are `origin + k * step` for `k` from 1 to
/// `steps`; the origin itself is not sampled.
#[derive(Clone, Copy, Debug, PartialEq, Eq, Structural)]
pub struct RayMarch {
    pub ox: i64,
    pub oy: i64,
    pub oz: i64,
    pub sx: i64,
    pub sy: i64,
    pub sz: i64,
    pub steps: u32,
}

/// The first solid voxel a ray reached: its chunk, its local coordinate in
/// that chunk, and the outward normal of the face it was entered through.
#[derive(Clone, Copy, Debug, PartialEq, Eq, Structural)]
pub struct RayHit {
    pub chunk: ChunkCoord,
    pub x: u32,
    pub y: u32,
    pub z: u32,
    pub normal: Face,
}

/// Every sample of the ray fits in `i64`.
pub open spec fn ray_in_range(ray: RayMarch) -> bool {
    &&& abs(ray.ox as int) + ray.steps * abs(ray.sx as int) <= i64::MAX
    &&& abs(ray.oy as int) + ray.steps * abs(ray.sy as int) <= i64::MAX
    &&& abs(ray.oz as int) + ray.steps * abs(ray.sz as int) <= i64::MAX
}

pub open spec fn sample_x(ray: RayMarch, k: int) -> int {
    ray.ox + k * ray.sx
}

pub open spec fn sample_y(ray: RayMarch, k: int) -> int {
    ray.oy + k * ray.sy
}

pub open spec fn sample_z(ray: RayMarch, k: int) -> int {
    ray.oz + k * ray.sz
}

pub open spec fn in_i32(v: int) -> bool {
    i32::MIN <= v <= i32::MAX
}

/// Column chunking: the chunk of world voxel `(vx, vy, vz)` is
/// `(floor(vx / cs), 0, floor(vz / cs))`, and the voxel's local coordinate in
/// it is `(vx mod cs, vy, vz mod cs)`.
pub open spec fn chunk_of_voxel(vx: int, vz: int, cs: int) -> ChunkCoord {
    ChunkCoord { x: floor_div(vx, cs) as i32, y: 0, z: floor_div(vz, cs) as i32 }
}

/// Whether world point `(px, py, pz)` (fixed-point) lies in a solid voxel of a
/// loaded chunk. A missing chunk holds nothing solid.
pub open spec fn point_solid(
    chunks: Map<ChunkCoord, Chunk>,
    px: int,
    py: int,
    pz: int,
    units: int,
    cs: int,
) -> bool {
    let vx = floor_div(px, units);
    let vy = floor_div(py, units);
    let vz = floor_div(pz, units);
    let c = chunk_of_voxel(vx, vz, cs);
    &&& in_i32(floor_div(vx, cs))
    &&& in_i32(floor_div(vz, cs))
    &&& chunks.contains_key(c)
    &&& chunks[c].voxels().voxel(floor_mod(vx, cs), vy, floor_mod(vz, cs))
}

pub open spec fn sample_solid(
    chunks: Map<ChunkCoord, Chunk>,
    ray: RayMarch,
    units: int,
    cs: int,
    k: int,
) -> bool {
    point_solid(chunks, sample_x(ray, k), sample_y(ray, k), sample_z(ray, k), units, cs)
}

/// The first solid sample at index `k` or later.
pub open spec fn first_solid_from(
    chunks: Map<ChunkCoord, Chunk>,
    ray: RayMarch,
    units: int,
    cs: int,
    k: int,
) -> Option<int>
    decreases ray.steps + 1 - k,
{
    if k > ray.steps || k < 1 {
        None
    } else if sample_solid(chunks, ray, units, cs, k) {
        Some(k)
    } else {
        first_solid_from(chunks, ray, units, cs, k + 1)
    }
}

/// How far into its voxel a point is along an axis on which the ray moves,
/// measured from the face the ray enters through: the low face when it moves
/// up the axis, the high face when it moves down.
pub open spec fn entry_depth(p: int, step: int, units: int) -> int {
    if step > 0 {
        floor_mod(p, units)
    } else {
        units - floor_mod(p, units)
    }
}

/// The face a sample was entered through: among the axes the ray moves
/// along, the one whose entry face is nearest (x before y before z on a tie),
/// facing against the ray's motion on that axis.
pub open spec fn hit_normal(ray: RayMarch, k: int, units: int) -> Face {
    let dx = entry_depth(sample_x(ray, k), ray.sx as int, units);
    let dy = entry_depth(sample_y(ray, k), ray.sy as int, units);
    let dz = entry_depth(sample_z(ray, k), ray.sz as int, units);
    let x_best = ray.sx != 0 && (ray.sy == 0 || dx <= dy) && (ray.sz == 0 || dx <= dz);
    let y_best = ray.sy != 0 && (ray.sz == 0 || dy <= dz);
    if x_best {
        if ray.sx > 0 { Face::NegX } else { Face::PosX }
    } else if y_best {
        if ray.sy > 0 { Face::NegY } else { Face::PosY }
    } else {
        if ray.sz > 0 { Face::NegZ } else { Face::PosZ }
    }
}

pub open spec fn hit_at(ray: RayMarch, units: int, cs: int, k: int) -> RayHit {
    let vx = floor_div(sample_x(ray, k), units);
    let vy = floor_div(sample_y(ray, k), units);
    let vz = floor_div(sample_z(ray, k), units);
    RayHit {
        chunk: chunk_of_voxel(vx, vz, cs),
        x: floor_mod(vx, cs) as u32,
        y: vy as u32,
        z: floor_mod(vz, cs) as u32,
        normal: hit_normal(ray, k, units),
    }
}

fn depth_of(p: i64, step: i64, units: i64) -> (r: i64)
    requires
        units > 0,
    ensures
        r == entry_depth(p as int, step as int, units as int),
{
    let f = offset_in_cell(p, units);
    if step > 0 {
        f
    } else {
        units - f
    }
}

fn normal_at(px: i64, py: i64, pz: i64, ray: &RayMarch, units: i64) -> (n: Face)
    requires
        units > 0,
    ensures
        n == ({
            let dx = entry_depth(px as int, ray.sx as int, units as int);
            let dy = entry_depth(py as int, ray.sy as int, units as int);
            let dz = entry_depth(pz as int, ray.sz as int, units as int);
            let x_best = ray.sx != 0 && (ray.sy == 0 || dx <= dy) && (ray.sz == 0 || dx <= dz);
            let y_best = ray.sy != 0 && (ray.sz == 0 || dy <= dz);
            if x_best {
                if ray.sx > 0 { Face::NegX } else { Face::PosX }
            } else if y_best {
                if ray.sy > 0 { Face::NegY } else { Face::PosY }
            } else {
                if ray.sz > 0 { Face::NegZ } else { Face::PosZ }
            }
        }),
{
    let dx = depth_of(px, ray.sx, units);
    let dy = depth_of(py, ray.sy, units);
    let dz = depth_of(pz, ray.sz, units);
    let x_best = ray.sx != 0 && (ray.sy == 0 || dx <= dy) && (ray.sz == 0 || dx <= dz);
    let y_best = ray.sy != 0 && (ray.sz == 0 || dy <= dz);
    if x_best {
        if ray.sx > 0 { Face::NegX } else { Face::PosX }
    } else if y_best {
        if ray.sy > 0 { Face::NegY } else { Face::PosY }
    } else {
        if ray.sz > 0 { Face::NegZ } else { Face::PosZ }
    }
}

/// Looks up the voxel under fixed-point point `(px, py, pz)`.
fn probe(store: &ChunkStore, px: i64, py: i64, pz: i64, units: i64, cs: i64) -> (r: Option<(ChunkCoord, u32, u32, u32)>)
    requires
        store.wf(),
        units > 0,
        cs > 0,
        cs <= u32::MAX,
    ensures
        r is Some == point_solid(store@, px as int, py as int, pz as int, units as int, cs as int),
        r matches Some(t) ==> ({
            let vx = floor_div(px as int, units as int);
            let vy = floor_div(py as int, units as int);
            let vz = floor_div(pz as int, units as int);
            &&& t.0 == chunk_of_voxel(vx, vz, cs as int)
            &&& t.1 == floor_mod(vx, cs as int)
            &&& t.2 == vy
            &&& t.3 == floor_mod(vz, cs as int)
        }),
{
    let vx = cell_of(px, units);
    let vy = cell_of(py, units);
    let vz = cell_of(pz, units);
    let cx = cell_of(vx, cs);
    let cz = cell_of(vz, cs);
    if cx < i32::MIN as i64 || cx > i32::MAX as i64 || cz < i32::MIN as i64 || cz > i32::MAX as i64 {
        return None;
    }
    let c = ChunkCoord { x: cx as i32, y: 0, z: cz as i32 };
    let lx = offset_in_cell(vx, cs);
    let lz = offset_in_cell(vz, cs);
    match store.get(c) {
        Some(chunk) => {
            let _ = chunk.grid.height();
            if vy < 0 || vy > u32::MAX as i64 {
                return None;
            }
            if chunk.grid.cell(lx as u32, vy as u32, lz as u32) {
                Some((c, lx as u32, vy as u32, lz as u32))
            } else {
                None
            }
        },
        None => None,
    }
}

proof fn lemma_sample_bound(o: int, s: int, k: int, n: int)
    requires
        0 <= k <= n,
        abs(o) + n * abs(s) <= i64::MAX,
    ensures
        i64::MIN <= o + k * s <= i64::MAX,
        o + (k + 1) * s == (o + k * s) + s,
{
    assert(abs(k * s) <= n * abs(s)) by (nonlinear_arith)
        requires 0 <= k <= n, abs(s) == if s < 0 { -s } else { s }, abs(k * s) == if k * s < 0 { -(k * s) } else { k * s };
    assert((k + 1) * s == k * s + s) by (nonlinear_arith);
}

/// Marches `ray` through the loaded chunks and returns the first sample that
/// lies in a solid voxel, or `None` when no sample does. Chunks are `cs`
/// voxels wide and deep and stacked in one layer; `units` fixed-point units
/// make one voxel.
pub fn raycast(store: &ChunkStore, ray: &RayMarch, units: i64, cs: i64) -> (r: Option<RayHit>)
    requires
        store.wf(),
        units > 0,
        0 < cs <= u32::MAX,
        ray_in_range(*ray),
    ensures
        r == match first_solid_from(store@, *ray, units as int, cs as int, 1) {
            Some(k) => Some(hit_at(*ray, units as int, cs as int, k)),
            None => None,
        },
{
    let mut px = ray.ox;
    let mut py = ray.oy;
    let mut pz = ray.oz;
    let mut k: u32 = 0;
    while k < ray.steps
        invariant
            store.wf(),
            units > 0,
            0 < cs <= u32::MAX,
            ray_in_range(*ray),
            k <= ray.steps,
            px == sample_x(*ray, k as int),
            py == sample_y(*ray, k as int),
            pz == sample_z(*ray, k as int),
            first_solid_from(store@, *ray, units as int, cs as int, 1) == first_solid_from(
                store@,
                *ray,
                units as int,
                cs as int,
                k + 1,
            ),
        decreases ray.steps - k,
    {
        proof {
            lemma_sample_bound(ray.ox as int, ray.sx as int, k as int, ray.steps as int);
            lemma_sample_bound(ray.oy as int, ray.sy as int, k as int, ray.steps as int);
            lemma_sample_bound(ray.oz as int, ray.sz as int, k as int, ray.steps as int);
            lemma_sample_bound(ray.ox as int, ray.sx as int, k + 1, ray.steps as int);
            lemma_sample_bound(ray.oy as int, ray.sy as int, k + 1, ray.steps as int);
            lemma_sample_bound(ray.oz as int, ray.sz as int, k + 1, ray.steps as int);
        }
        px = px + ray.sx;
        py = py + ray.sy;
        pz = pz + ray.sz;
        k = k + 1;
        if let Some((c, lx, ly, lz)) = probe(store, px, py, pz, units, cs) {
            let normal = normal_at(px, py, pz, ray, units);
            return Some(RayHit { chunk: c, x: lx, y: ly, z: lz, normal });
        }
    }
    None
}

} // verus!
