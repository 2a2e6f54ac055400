use vstd::prelude::*;

verus! {

/// Integer coordinate of a chunk in the chunk lattice.
#[derive(Clone, Copy, Debug, PartialEq, Eq, Structural, Hash)]
pub struct ChunkCoord {
    pub x: i32,
    pub y: i32,
    pub z: i32,
}

impl ChunkCoord {
    pub fn new(x: i32, y: i32, z: i32) -> (r: ChunkCoord)
        ensures
            r == (ChunkCoord { x, y, z }),
    {
        ChunkCoord { x, y, z }
    }
}

/// Absolute value.
pub open spec fn abs(v: int) -> int {
    if v < 0 {
        -v
    } else {
        v
    }
}

/// Index of the cell of size `size` that holds `v`: `floor(v / size)`.
/// For a positive divisor the division on `int` rounds toward negative infinity.
pub open spec fn floor_div(v: int, size: int) -> int {
    v / size
}

/// Offset of `v` inside its cell of size `size`, in `[0, size)`.
pub open spec fn floor_mod(v: int, size: int) -> int {
    v % size
}

/// The cell of size `size` that holds `v`, rounding toward negative infinity.
pub fn cell_of(v: i64, size: i64) -> (r: i64)
    requires
        size > 0,
    ensures
        r == floor_div(v as int, size as int),
        r * size <= v < r * size + size,
{
    proof {
        let q = v as int / size as int;
        let m = v as int % size as int;
        vstd::arithmetic::div_mod::lemma_fundamental_div_mod(v as int, size as int);
        vstd::arithmetic::div_mod::lemma_mod_bound(v as int, size as int);
        assert(q * size <= v < q * size + size && i64::MIN <= q <= i64::MAX) by (nonlinear_arith)
            requires
                v == size * q + m,
                0 <= m < size,
                size >= 1,
                i64::MIN <= v <= i64::MAX;
    }
    match v.checked_div_euclid(size) {
        Some(q) => q,
        None => 0,
    }
}

/// Offset of `v` inside its cell of size `size`.
pub fn offset_in_cell(v: i64, size: i64) -> (r: i64)
    requires
        size > 0,
    ensures
        r == floor_mod(v as int, size as int),
        0 <= r < size,
{
    proof {
        vstd::arithmetic::div_mod::lemma_mod_bound(v as int, size as int);
    }
    match v.checked_rem_euclid(size) {
        Some(m) => m,
        None => 0,
    }
}

/// The chunk column that holds fixed-point world point `(px, pz)`, where
/// `units` make one voxel and a chunk is `chunk_size` voxels wide and deep:
/// `(floor(floor(px / units) / chunk_size), 0, ...)`. `None` when that column
/// lies outside the range of chunk coordinates.
pub fn column_of_point(px: i64, pz: i64, units: i64, chunk_size: i64) -> (r: Option<ChunkCoord>)
    requires
        units > 0,
        chunk_size > 0,
    ensures
        ({
            let cx = floor_div(floor_div(px as int, units as int), chunk_size as int);
            let cz = floor_div(floor_div(pz as int, units as int), chunk_size as int);
            if i32::MIN <= cx <= i32::MAX && i32::MIN <= cz <= i32::MAX {
                r == Some(ChunkCoord { x: cx as i32, y: 0, z: cz as i32 })
            } else {
                r is None
            }
        }),
{
    let cx = cell_of(cell_of(px, units), chunk_size);
    let cz = cell_of(cell_of(pz, units), chunk_size);
    if cx < i32::MIN as i64 || cx > i32::MAX as i64 || cz < i32::MIN as i64 || cz > i32::MAX as i64 {
        None
    } else {
        Some(ChunkCoord { x: cx as i32, y: 0, z: cz as i32 })
    }
}

} // verus!
