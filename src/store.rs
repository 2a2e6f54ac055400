use vstd::prelude::*;
use crate::chunk::{slot_offset, Chunk, NEG_X, NEG_Y, NEG_Z, POS_X, POS_Y};
use crate::grid::VoxelGrid;
use crate::coords::ChunkCoord;

verus! {

pub open spec fn has_position(s: Seq<Chunk>, c: ChunkCoord) -> bool {
    exists|i: int| 0 <= i < s.len() && (#[trigger] s[i]).position == c
}

pub open spec fn positions_unique(s: Seq<Chunk>) -> bool {
    forall|i: int, j: int|
        0 <= i < s.len() && 0 <= j < s.len() && i != j ==> (#[trigger] s[i]).position != (
        #[trigger] s[j]).position
}

/// The chunks of `s` keyed by position.
pub open spec fn chunk_map(s: Seq<Chunk>) -> Map<ChunkCoord, Chunk> {
    Map::new(
        |c: ChunkCoord| has_position(s, c),
        |c: ChunkCoord| s[choose|i: int| 0 <= i < s.len() && (#[trigger] s[i]).position == c],
    )
}

proof fn lemma_map_at(s: Seq<Chunk>, i: int)
    requires
        positions_unique(s),
        0 <= i < s.len(),
    ensures
        chunk_map(s).contains_key(s[i].position),
        chunk_map(s)[s[i].position] == s[i],
{
    let c = s[i].position;
    assert(has_position(s, c));
    let j = choose|j: int| 0 <= j < s.len() && (#[trigger] s[j]).position == c;
    assert(i == j);
}

proof fn lemma_map_push(s: Seq<Chunk>, ch: Chunk)
    requires
        positions_unique(s),
        !has_position(s, ch.position),
    ensures
        positions_unique(s.push(ch)),
        chunk_map(s.push(ch)) == chunk_map(s).insert(ch.position, ch),
{
    let t = s.push(ch);
    assert forall|i: int, j: int|
        0 <= i < t.len() && 0 <= j < t.len() && i != j implies (#[trigger] t[i]).position != (
        #[trigger] t[j]).position by {
        if i < s.len() && j < s.len() {
            assert(t[i] == s[i] && t[j] == s[j]);
        } else if i < s.len() {
            assert(t[i] == s[i]);
        } else {
            assert(t[j] == s[j]);
        }
    }
    assert forall|c: ChunkCoord| has_position(t, c) == (has_position(s, c) || c == ch.position) by {
        if has_position(s, c) {
            let i = choose|i: int| 0 <= i < s.len() && (#[trigger] s[i]).position == c;
            assert(t[i] == s[i]);
        }
        if has_position(t, c) {
            let i = choose|i: int| 0 <= i < t.len() && (#[trigger] t[i]).position == c;
            if i < s.len() {
                assert(t[i] == s[i]);
            }
        }
        assert(t[s.len() as int] == ch);
    }
    assert forall|c: ChunkCoord| #[trigger] chunk_map(t).contains_key(c) implies chunk_map(t)[c]
        == chunk_map(s).insert(ch.position, ch)[c] by {
        let i = choose|i: int| 0 <= i < t.len() && (#[trigger] t[i]).position == c;
        lemma_map_at(t, i);
        if i < s.len() {
            assert(t[i] == s[i]);
            lemma_map_at(s, i);
        }
    }
    assert(chunk_map(t) =~= chunk_map(s).insert(ch.position, ch));
}

proof fn lemma_map_update(s: Seq<Chunk>, i: int, ch: Chunk)
    requires
        positions_unique(s),
        0 <= i < s.len(),
        ch.position == s[i].position,
    ensures
        positions_unique(s.update(i, ch)),
        chunk_map(s.update(i, ch)) == chunk_map(s).insert(ch.position, ch),
{
    let t = s.update(i, ch);
    assert forall|a: int, b: int|
        0 <= a < t.len() && 0 <= b < t.len() && a != b implies (#[trigger] t[a]).position != (
        #[trigger] t[b]).position by {
        assert(t[a].position == s[a].position && t[b].position == s[b].position);
    }
    assert forall|c: ChunkCoord| has_position(t, c) == has_position(s, c) by {
        if has_position(s, c) {
            let j = choose|j: int| 0 <= j < s.len() && (#[trigger] s[j]).position == c;
            assert(t[j].position == s[j].position);
        }
        if has_position(t, c) {
            let j = choose|j: int| 0 <= j < t.len() && (#[trigger] t[j]).position == c;
            assert(t[j].position == s[j].position);
        }
    }
    assert forall|c: ChunkCoord| #[trigger] chunk_map(t).contains_key(c) implies chunk_map(t)[c]
        == chunk_map(s).insert(ch.position, ch)[c] by {
        let j = choose|j: int| 0 <= j < t.len() && (#[trigger] t[j]).position == c;
        lemma_map_at(t, j);
        if j != i {
            assert(t[j] == s[j]);
            lemma_map_at(s, j);
        }
    }
    lemma_map_at(s, i);
    assert(chunk_map(t) =~= chunk_map(s).insert(ch.position, ch));
}

proof fn lemma_map_remove(s: Seq<Chunk>, i: int)
    requires
        positions_unique(s),
        0 <= i < s.len(),
    ensures
        positions_unique(s.remove(i)),
        chunk_map(s.remove(i)) == chunk_map(s).remove(s[i].position),
{
    let t = s.remove(i);
    let p = s[i].position;
    assert forall|a: int| 0 <= a < t.len() implies #[trigger] t[a] == s[if a < i { a } else { a + 1 }] by {}
    assert forall|a: int, b: int|
        0 <= a < t.len() && 0 <= b < t.len() && a != b implies (#[trigger] t[a]).position != (
        #[trigger] t[b]).position by {
        assert(t[a] == s[if a < i { a } else { a + 1 }]);
        assert(t[b] == s[if b < i { b } else { b + 1 }]);
    }
    assert forall|c: ChunkCoord| has_position(t, c) == (has_position(s, c) && c != p) by {
        if has_position(s, c) && c != p {
            let j = choose|j: int| 0 <= j < s.len() && (#[trigger] s[j]).position == c;
            let k = if j < i { j } else { j - 1 };
            assert(t[k] == s[if k < i { k } else { k + 1 }]);
        }
        if has_position(t, c) {
            let k = choose|k: int| 0 <= k < t.len() && (#[trigger] t[k]).position == c;
            assert(t[k] == s[if k < i { k } else { k + 1 }]);
        }
    }
    assert forall|c: ChunkCoord| #[trigger] chunk_map(t).contains_key(c) implies chunk_map(t)[c]
        == chunk_map(s).remove(p)[c] by {
        let k = choose|k: int| 0 <= k < t.len() && (#[trigger] t[k]).position == c;
        lemma_map_at(t, k);
        assert(t[k] == s[if k < i { k } else { k + 1 }]);
        lemma_map_at(s, if k < i { k } else { k + 1 });
    }
    assert(chunk_map(t) =~= chunk_map(s).remove(p));
}

proof fn lemma_map_dom_len(s: Seq<Chunk>)
    requires
        positions_unique(s),
    ensures
        chunk_map(s).dom().finite(),
        chunk_map(s).dom().len() == s.len(),
    decreases s.len(),
{
    if s.len() == 0 {
        assert(chunk_map(s).dom() =~= Set::<ChunkCoord>::empty());
    } else {
        let t = s.drop_last();
        assert(positions_unique(t)) by {
            assert forall|i: int, j: int|
                0 <= i < t.len() && 0 <= j < t.len() && i != j implies (#[trigger] t[i]).position
                != (#[trigger] t[j]).position by {
                assert(t[i] == s[i] && t[j] == s[j]);
            }
        }
        assert(s =~= t.push(s.last()));
        assert(!has_position(t, s.last().position)) by {
            if has_position(t, s.last().position) {
                let j = choose|j: int|
                    0 <= j < t.len() && (#[trigger] t[j]).position == s.last().position;
                assert(s[j] == t[j]);
            }
        }
        lemma_map_push(t, s.last());
        lemma_map_dom_len(t);
        assert(chunk_map(s).dom() =~= chunk_map(t).dom().insert(s.last().position));
    }
}

/// The chunk of lattice position `c + slot_offset(s)`, when that position is
/// representable.
pub open spec fn neighbor_coord(c: ChunkCoord, s: int) -> Option<ChunkCoord> {
    let (dx, dy, dz) = slot_offset(s);
    let x = c.x + dx;
    let y = c.y + dy;
    let z = c.z + dz;
    if i32::MIN <= x <= i32::MAX && i32::MIN <= y <= i32::MAX && i32::MIN <= z <= i32::MAX {
        Some(ChunkCoord { x: x as i32, y: y as i32, z: z as i32 })
    } else {
        None
    }
}

/// Whether the voxel `(x, y, z)` of a chunk with grid `g` lies on the face
/// toward neighbour slot `s`.
pub open spec fn touches_face(g: VoxelGrid, x: int, y: int, z: int, s: int) -> bool {
    if s == 0 {
        x == 0
    } else if s == 1 {
        x == g.spec_width() - 1
    } else if s == 2 {
        y == 0
    } else if s == 3 {
        y == g.spec_height() - 1
    } else if s == 4 {
        z == 0
    } else {
        z == g.spec_depth() - 1
    }
}

/// Chunk position `k` is across one of the first `upto` faces that voxel
/// `(x, y, z)` of chunk `c` (grid `g`) touches.
pub open spec fn across_touched_face(
    c: ChunkCoord,
    g: VoxelGrid,
    x: int,
    y: int,
    z: int,
    k: ChunkCoord,
    upto: int,
) -> bool {
    exists|s: int|
        0 <= s < upto && #[trigger] touches_face(g, x, y, z, s) && neighbor_coord(c, s) == Some(k)
}

proof fn lemma_across_intro(
    c: ChunkCoord,
    g: VoxelGrid,
    x: int,
    y: int,
    z: int,
    k: ChunkCoord,
    s: int,
    upto: int,
)
    requires
        0 <= s < upto,
        touches_face(g, x, y, z, s),
        neighbor_coord(c, s) == Some(k),
    ensures
        across_touched_face(c, g, x, y, z, k, upto),
{
}

pub open spec fn with_dirty(ch: Chunk) -> Chunk {
    Chunk { dirty: true, ..ch }
}

fn neighbor_of(c: ChunkCoord, s: usize) -> (r: Option<ChunkCoord>)
    requires
        s < 6,
    ensures
        r == neighbor_coord(c, s as int),
{
    let (x, y, z) = (c.x as i64, c.y as i64, c.z as i64);
    let (x, y, z) = if s == NEG_X {
        (x - 1, y, z)
    } else if s == POS_X {
        (x + 1, y, z)
    } else if s == NEG_Y {
        (x, y - 1, z)
    } else if s == POS_Y {
        (x, y + 1, z)
    } else if s == NEG_Z {
        (x, y, z - 1)
    } else {
        (x, y, z + 1)
    };
    if i32::MIN as i64 <= x && x <= i32::MAX as i64 && i32::MIN as i64 <= y && y <= i32::MAX as i64
        && i32::MIN as i64 <= z && z <= i32::MAX as i64 {
        Some(ChunkCoord { x: x as i32, y: y as i32, z: z as i32 })
    } else {
        None
    }
}

fn touches(g: &VoxelGrid, x: i32, y: i32, z: i32, s: usize) -> (r: bool)
    requires
        s < 6,
    ensures
        r == touches_face(*g, x as int, y as int, z as int, s as int),
{
    let (x, y, z) = (x as i64, y as i64, z as i64);
    if s == NEG_X {
        x == 0
    } else if s == POS_X {
        x == g.width() as i64 - 1
    } else if s == NEG_Y {
        y == 0
    } else if s == POS_Y {
        y == g.height() as i64 - 1
    } else if s == NEG_Z {
        z == 0
    } else {
        z == g.depth() as i64 - 1
    }
}

/// What became of a finished mesh build.
#[derive(Clone, Copy, Debug, PartialEq, Eq, Structural)]
pub enum BuildOutcome {
    /// The chunk is gone, or had no build in flight: drop the mesh.
    Discarded,
    /// The mesh shows the chunk's voxels; the chunk is clean.
    Current,
    /// A voxel changed while the build ran: show the mesh, and the chunk
    /// stays dirty for another build.
    Stale,
}

/// All loaded chunks, at most one per lattice position.
pub struct ChunkStore {
    chunks: Vec<Chunk>,
    next_ticket: u64,
}

impl View for ChunkStore {
    type V = Map<ChunkCoord, Chunk>;

    closed spec fn view(&self) -> Map<ChunkCoord, Chunk> {
        chunk_map(self.chunks@)
    }
}

impl ChunkStore {
    /// The ticket the next mesh build gets; tickets only grow.
    pub closed spec fn spec_next_ticket(&self) -> u64 {
        self.next_ticket
    }

    /// Positions are unique and every chunk is well formed.
    pub closed spec fn wf(&self) -> bool {
        &&& positions_unique(self.chunks@)
        &&& forall|i: int| 0 <= i < self.chunks@.len() ==> (#[trigger] self.chunks@[i]).wf()
    }

    pub fn new() -> (r: ChunkStore)
        ensures
            r.wf(),
            r@ == Map::<ChunkCoord, Chunk>::empty(),
    {
        let r = ChunkStore { chunks: Vec::new(), next_ticket: 0 };
        assert(r@ =~= Map::<ChunkCoord, Chunk>::empty());
        r
    }

    pub fn len(&self) -> (n: usize)
        requires
            self.wf(),
        ensures
            n == self@.dom().len(),
    {
        proof {
            self.lemma_dom_len();
        }
        self.chunks.len()
    }

    proof fn lemma_dom_len(&self)
        requires
            self.wf(),
        ensures
            self@.dom().finite(),
            self@.dom().len() == self.chunks@.len(),
    {
        lemma_map_dom_len(self.chunks@);
    }

    fn index_of(&self, c: ChunkCoord) -> (r: Option<usize>)
        requires
            self.wf(),
        ensures
            r is None <==> !self@.contains_key(c),
            r matches Some(i) ==> i < self.chunks@.len() && self.chunks@[i as int].position == c,
    {
        let mut i: usize = 0;
        while i < self.chunks.len()
            invariant
                i <= self.chunks@.len(),
                forall|j: int| 0 <= j < i ==> (#[trigger] self.chunks@[j]).position != c,
            decreases self.chunks@.len() - i,
        {
            if self.chunks[i].position == c {
                return Some(i);
            }
            i = i + 1;
        }
        None
    }

    pub fn contains(&self, c: ChunkCoord) -> (r: bool)
        requires
            self.wf(),
        ensures
            r == self@.contains_key(c),
    {
        self.index_of(c).is_some()
    }

    /// The chunk at `c`; a missing chunk is `None`, never an error.
    pub fn get(&self, c: ChunkCoord) -> (r: Option<&Chunk>)
        requires
            self.wf(),
        ensures
            r is None <==> !self@.contains_key(c),
            r matches Some(ch) ==> *ch == self@[c] && ch.wf(),
    {
        match self.index_of(c) {
            Some(i) => {
                proof {
                    lemma_map_at(self.chunks@, i as int);
                }
                Some(&self.chunks[i])
            },
            None => None,
        }
    }

    /// Adds `chunk` with the renderable it carries, both at once. A position
    /// that is taken is left alone and the result is `false`.
    pub fn insert(&mut self, chunk: Chunk) -> (added: bool)
        requires
            old(self).wf(),
            chunk.wf(),
        ensures
            final(self).wf(),
            final(self).spec_next_ticket() == old(self).spec_next_ticket(),
            added == !old(self)@.contains_key(chunk.position),
            added ==> final(self)@ == old(self)@.insert(chunk.position, chunk),
            !added ==> final(self)@ == old(self)@,
    {
        if self.index_of(chunk.position).is_some() {
            return false;
        }
        proof {
            lemma_map_push(self.chunks@, chunk);
        }
        self.chunks.push(chunk);
        true
    }

    /// Drops the chunk at `c` together with its renderable, and hands it back
    /// so that the caller can release what it rendered.
    pub fn remove(&mut self, c: ChunkCoord) -> (r: Option<Chunk>)
        requires
            old(self).wf(),
        ensures
            final(self).wf(),
            final(self).spec_next_ticket() == old(self).spec_next_ticket(),
            final(self)@ == old(self)@.remove(c),
            r is None <==> !old(self)@.contains_key(c),
            r matches Some(ch) ==> ch == old(self)@[c],
    {
        match self.index_of(c) {
            Some(i) => {
                proof {
                    lemma_map_at(self.chunks@, i as int);
                    lemma_map_remove(self.chunks@, i as int);
                }
                let ch = self.chunks.remove(i);
                Some(ch)
            },
            None => {
                assert(old(self)@.remove(c) =~= old(self)@);
                None
            },
        }
    }

    /// Empties voxel `(x, y, z)` of the chunk at `c`. When that voxel was
    /// solid, the chunk becomes dirty, and so does every loaded chunk across
    /// a face of the chunk that the voxel touches, so that the seams show the
    /// edit. Returns the positions made dirty: `c` first, then the neighbours.
    /// A missing chunk or an empty voxel changes nothing.
    pub fn remove_voxel(&mut self, c: ChunkCoord, x: i32, y: i32, z: i32) -> (dirtied: Vec<ChunkCoord>)
        requires
            old(self).wf(),
        ensures
            final(self).wf(),
            final(self).spec_next_ticket() == old(self).spec_next_ticket(),
            final(self)@.dom() == old(self)@.dom(),
            !(old(self)@.contains_key(c) && old(self)@[c].voxels().voxel(x as int, y as int, z as int))
                ==> final(self)@ == old(self)@ && dirtied@.len() == 0,
            old(self)@.contains_key(c) && old(self)@[c].voxels().voxel(x as int, y as int, z as int)
                ==> {
                let before = old(self)@[c];
                let after = final(self)@[c];
                &&& after.dirty
                &&& after.position == c
                &&& after.renderable == before.renderable
                &&& after.building == before.building
                &&& after.edited_while_building == (before.edited_while_building || before.building)
                &&& after.voxels().same_dims(&before.voxels())
                &&& forall|a: int, b: int, e: int| #[trigger] after.voxels().voxel(a, b, e) == (before.voxels().voxel(a, b, e) && !(a == x && b == y && e == z))
                &&& forall|k: ChunkCoord| #[trigger] final(self)@.contains_key(k) && k != c ==> final(self)@[k] == if across_touched_face(c, before.voxels(), x as int, y as int, z as int, k, 6) {
                    with_dirty(old(self)@[k])
                } else {
                    old(self)@[k]
                }
                &&& forall|k: ChunkCoord| #[trigger] dirtied@.contains(k) == (k == c || (old(self)@.contains_key(k) && across_touched_face(c, before.voxels(), x as int, y as int, z as int, k, 6)))
                &&& dirtied@[0] == c
            },
    {
        let i = match self.index_of(c) {
            Some(i) => i,
            None => return Vec::new(),
        };
        proof {
            lemma_map_at(self.chunks@, i as int);
        }
        if !self.chunks[i].grid.get(x, y, z) {
            return Vec::new();
        }
        let ghost before = self.chunks@[i as int];
        let ghost g = before.voxels();
        let ghost s0 = self.chunks@;
        self.chunks[i].remove_voxel(x, y, z);
        proof {
            lemma_map_update(s0, i as int, self.chunks@[i as int]);
        }
        let ghost mid = self@;
        let mut dirtied: Vec<ChunkCoord> = Vec::new();
        dirtied.push(c);
        proof {
            assert forall|k: ChunkCoord| #[trigger] dirtied@.contains(k) == (k == c) by {
                if k == c {
                    assert(dirtied@[0] == c);
                }
            }
            lemma_map_at(self.chunks@, i as int);
        }
        let mut s: usize = 0;
        while s < 6
            invariant
                self.wf(),
                mid.contains_key(c),
                mid[c].position == c,
                g == before.voxels(),
                mid[c].voxels().same_dims(&g),
                self.chunks@.len() > i,
                self.chunks@[i as int] == mid[c],
                self@.dom() == mid.dom(),
                self@[c] == mid[c],
                s <= 6,
                self.next_ticket == old(self).next_ticket,
                dirtied@.len() > 0,
                dirtied@[0] == c,
                forall|k: ChunkCoord| #[trigger] self@.contains_key(k) && k != c ==> self@[k] == if across_touched_face(c, g, x as int, y as int, z as int, k, s as int) {
                    with_dirty(mid[k])
                } else {
                    mid[k]
                },
                forall|k: ChunkCoord| #[trigger] dirtied@.contains(k) == (k == c || (mid.contains_key(k) && across_touched_face(c, g, x as int, y as int, z as int, k, s as int))),
            decreases 6 - s,
        {
            let ghost v0 = self@;
            let ghost d0 = dirtied@;
            let t = touches(&self.chunks[i].grid, x, y, z, s);
            assert(self.chunks@[i as int].grid == mid[c].voxels());
            assert(t == touches_face(mid[c].voxels(), x as int, y as int, z as int, s as int));
            assert(t == touches_face(g, x as int, y as int, z as int, s as int));
            let n = neighbor_of(c, s);
            let ghost mut added: Option<ChunkCoord> = None;
            if t {
                if let Some(k) = n {
                    if let Some(j) = self.index_of(k) {
                        let ghost sj = self.chunks@;
                        proof {
                            lemma_map_at(sj, j as int);
                        }
                        assert(k != c);
                        self.chunks[j].dirty = true;
                        proof {
                            lemma_map_update(sj, j as int, self.chunks@[j as int]);
                        }
                        dirtied.push(k);
                        proof {
                            added = Some(k);
                        }
                    }
                }
            }
            assert(added matches Some(k) ==> t && n == Some(k) && mid.contains_key(k) && dirtied@ == d0.push(k));
            assert(added is None ==> dirtied@ == d0 && !(t && n is Some && mid.contains_key(n->Some_0)));
            proof {
                assert forall|k: ChunkCoord| #[trigger] self@.contains_key(k) && k != c implies self@[k] == if across_touched_face(c, g, x as int, y as int, z as int, k, s + 1) {
                    with_dirty(mid[k])
                } else {
                    mid[k]
                } by {
                    if across_touched_face(c, g, x as int, y as int, z as int, k, s + 1) && !across_touched_face(c, g, x as int, y as int, z as int, k, s as int) {
                        let w = choose|w: int| 0 <= w < s + 1 && #[trigger] touches_face(g, x as int, y as int, z as int, w) && neighbor_coord(c, w) == Some(k);
                        assert(w == s);
                    }
                    if across_touched_face(c, g, x as int, y as int, z as int, k, s as int) {
                        let w = choose|w: int| 0 <= w < s && #[trigger] touches_face(g, x as int, y as int, z as int, w) && neighbor_coord(c, w) == Some(k);
                        assert(across_touched_face(c, g, x as int, y as int, z as int, k, s + 1));
                    }
                    if t && n == Some(k) {
                        assert(touches_face(g, x as int, y as int, z as int, s as int));
                        lemma_across_intro(c, g, x as int, y as int, z as int, k, s as int, s + 1);
                    }
                }
                assert forall|k: ChunkCoord| #[trigger] dirtied@.contains(k) == (k == c || (mid.contains_key(k) && across_touched_face(c, g, x as int, y as int, z as int, k, s + 1))) by {
                    if across_touched_face(c, g, x as int, y as int, z as int, k, s + 1) && !across_touched_face(c, g, x as int, y as int, z as int, k, s as int) {
                        let w = choose|w: int| 0 <= w < s + 1 && #[trigger] touches_face(g, x as int, y as int, z as int, w) && neighbor_coord(c, w) == Some(k);
                        assert(w == s);
                    }
                    if across_touched_face(c, g, x as int, y as int, z as int, k, s as int) {
                        let w = choose|w: int| 0 <= w < s && #[trigger] touches_face(g, x as int, y as int, z as int, w) && neighbor_coord(c, w) == Some(k);
                        assert(across_touched_face(c, g, x as int, y as int, z as int, k, s + 1));
                    }
                    if t && n == Some(k) && mid.contains_key(k) {
                        assert(touches_face(g, x as int, y as int, z as int, s as int));
                        lemma_across_intro(c, g, x as int, y as int, z as int, k, s as int, s + 1);
                    }
                    if added is Some {
                        let k0 = added->Some_0;
                        if d0.contains(k) {
                            let q = choose|q: int| 0 <= q < d0.len() && d0[q] == k;
                            assert(dirtied@[q] == k);
                        }
                        if k == k0 {
                            assert(dirtied@[d0.len() as int] == k);
                        }
                        if dirtied@.contains(k) && k != k0 {
                            let q = choose|q: int| 0 <= q < dirtied@.len() && dirtied@[q] == k;
                            assert(d0[q] == k);
                        }
                    }
                }
            }
            s = s + 1;
        }
        proof {
            assert(dirtied@.contains(c));
        }
        dirtied
    }

    /// The loaded chunks across each face of `c`, in slot order; a missing
    /// chunk is `None`.
    pub fn neighbors(&self, c: ChunkCoord) -> (r: [Option<&Chunk>; 6])
        requires
            self.wf(),
        ensures
            forall|s: int|
                0 <= s < 6 ==> match #[trigger] r@[s] {
                    Some(ch) => neighbor_coord(c, s) matches Some(k) && self@.contains_key(k) && *ch == self@[k] && ch.wf(),
                    None => !(neighbor_coord(c, s) matches Some(k) && self@.contains_key(k)),
                },
    {
        [
            self.neighbor(c, 0),
            self.neighbor(c, 1),
            self.neighbor(c, 2),
            self.neighbor(c, 3),
            self.neighbor(c, 4),
            self.neighbor(c, 5),
        ]
    }

    fn neighbor(&self, c: ChunkCoord, s: usize) -> (r: Option<&Chunk>)
        requires
            self.wf(),
            s < 6,
        ensures
            match r {
                Some(ch) => neighbor_coord(c, s as int) matches Some(k) && self@.contains_key(k) && *ch == self@[k] && ch.wf(),
                None => !(neighbor_coord(c, s as int) matches Some(k) && self@.contains_key(k)),
            },
    {
        match neighbor_of(c, s) {
            Some(k) => self.get(k),
            None => None,
        }
    }

    /// Records the handle of the renderable that shows the chunk at `c`.
    /// Returns `false`, changing nothing, when no chunk is there.
    pub fn set_renderable(&mut self, c: ChunkCoord, handle: Option<u64>) -> (found: bool)
        requires
            old(self).wf(),
        ensures
            final(self).wf(),
            final(self).spec_next_ticket() == old(self).spec_next_ticket(),
            found == old(self)@.contains_key(c),
            found ==> final(self)@ == old(self)@.insert(c, Chunk { renderable: handle, ..old(self)@[c] }),
            !found ==> final(self)@ == old(self)@,
    {
        match self.index_of(c) {
            Some(i) => {
                let ghost s0 = self.chunks@;
                proof {
                    lemma_map_at(s0, i as int);
                }
                self.chunks[i].renderable = handle;
                proof {
                    lemma_map_update(s0, i as int, self.chunks@[i as int]);
                }
                true
            },
            None => false,
        }
    }

    /// Starts a mesh build for the chunk at `c` when it is dirty and has
    /// none in flight (see [`Chunk::begin_build`]), and returns the build's
    /// ticket. Tickets are handed out in increasing order, so a result that
    /// comes back for a chunk evicted and loaded again meanwhile is told
    /// apart from the new chunk's own build. `None` when no build started,
    /// also once every ticket has been used.
    pub fn begin_build(&mut self, c: ChunkCoord) -> (ticket: Option<u64>)
        requires
            old(self).wf(),
        ensures
            final(self).wf(),
            final(self)@.dom() == old(self)@.dom(),
            (ticket is Some) == (old(self)@.contains_key(c) && old(self)@[c].dirty && !old(self)@[c].building
                && old(self).spec_next_ticket() < u64::MAX),
            ticket matches Some(t) ==> t == old(self).spec_next_ticket() && final(self).spec_next_ticket() == t + 1
                && final(self)@ == old(self)@.insert(c, Chunk { building: true, edited_while_building: false, build_ticket: t, ..old(self)@[c] }),
            ticket is None ==> final(self)@ == old(self)@ && final(self).spec_next_ticket() == old(self).spec_next_ticket(),
    {
        if self.next_ticket == u64::MAX {
            return None;
        }
        match self.index_of(c) {
            Some(i) => {
                let ghost s0 = self.chunks@;
                proof {
                    lemma_map_at(s0, i as int);
                }
                if !self.chunks[i].dirty || self.chunks[i].building {
                    return None;
                }
                let t = self.next_ticket;
                self.chunks[i].begin_build(t);
                proof {
                    lemma_map_update(s0, i as int, self.chunks@[i as int]);
                }
                self.next_ticket = t + 1;
                Some(t)
            },
            None => None,
        }
    }

    /// Records that the build with `ticket` for `c` finished (see
    /// [`Chunk::finish_build`]) and says what to do with its mesh. A result
    /// for a chunk that is gone, or whose build in flight is another one, is
    /// discarded.
    pub fn finish_build(&mut self, c: ChunkCoord, ticket: u64) -> (r: BuildOutcome)
        requires
            old(self).wf(),
        ensures
            final(self).wf(),
            final(self)@.dom() == old(self)@.dom(),
            final(self).spec_next_ticket() == old(self).spec_next_ticket(),
            !(old(self)@.contains_key(c) && old(self)@[c].building && old(self)@[c].build_ticket == ticket)
                ==> r == BuildOutcome::Discarded && final(self)@ == old(self)@,
            old(self)@.contains_key(c) && old(self)@[c].building && old(self)@[c].build_ticket == ticket ==> {
                let ch = old(self)@[c];
                &&& r == if ch.edited_while_building { BuildOutcome::Stale } else { BuildOutcome::Current }
                &&& final(self)@ == old(self)@.insert(c, Chunk { building: false, dirty: ch.dirty && ch.edited_while_building, ..ch })
            },
    {
        match self.index_of(c) {
            Some(i) => {
                let ghost s0 = self.chunks@;
                proof {
                    lemma_map_at(s0, i as int);
                }
                if !self.chunks[i].building || self.chunks[i].build_ticket != ticket {
                    return BuildOutcome::Discarded;
                }
                let clean = self.chunks[i].finish_build();
                proof {
                    lemma_map_update(s0, i as int, self.chunks@[i as int]);
                    assert(self.chunks@[i as int] == Chunk { building: false, dirty: s0[i as int].dirty && s0[i as int].edited_while_building, ..s0[i as int] });
                }
                if clean {
                    BuildOutcome::Current
                } else {
                    BuildOutcome::Stale
                }
            },
            None => BuildOutcome::Discarded,
        }
    }

    /// Positions of the chunks that are dirty and have no build in flight,
    /// in the store's order.
    pub fn chunks_needing_build(&self) -> (r: Vec<ChunkCoord>)
        requires
            self.wf(),
        ensures
            forall|k: ChunkCoord| #[trigger] r@.contains(k) == (self@.contains_key(k) && self@[k].dirty && !self@[k].building),
    {
        let mut r: Vec<ChunkCoord> = Vec::new();
        let mut i: usize = 0;
        while i < self.chunks.len()
            invariant
                self.wf(),
                i <= self.chunks@.len(),
                forall|k: ChunkCoord| #[trigger] r@.contains(k) == (exists|j: int| 0 <= j < i && (#[trigger] self.chunks@[j]).position == k && self.chunks@[j].dirty && !self.chunks@[j].building),
            decreases self.chunks@.len() - i,
        {
            let ghost r0 = r@;
            if self.chunks[i].dirty && !self.chunks[i].building {
                r.push(self.chunks[i].position);
            }
            proof {
                assert forall|k: ChunkCoord| #[trigger] r@.contains(k) == (exists|j: int| 0 <= j < i + 1 && (#[trigger] self.chunks@[j]).position == k && self.chunks@[j].dirty && !self.chunks@[j].building) by {
                    if r@.len() > r0.len() {
                        if r0.contains(k) {
                            let q = choose|q: int| 0 <= q < r0.len() && r0[q] == k;
                            assert(r@[q] == k);
                        }
                        if k == self.chunks@[i as int].position {
                            assert(r@[r0.len() as int] == k);
                        }
                        if r@.contains(k) && k != self.chunks@[i as int].position {
                            let q = choose|q: int| 0 <= q < r@.len() && r@[q] == k;
                            assert(r0[q] == k);
                        }
                    }
                    if exists|j: int| 0 <= j < i + 1 && (#[trigger] self.chunks@[j]).position == k && self.chunks@[j].dirty && !self.chunks@[j].building {
                        let j = choose|j: int| 0 <= j < i + 1 && (#[trigger] self.chunks@[j]).position == k && self.chunks@[j].dirty && !self.chunks@[j].building;
                        if j == i {
                            assert(r@.contains(k)) by {
                                assert(r@[r@.len() - 1] == k);
                            }
                        }
                    }
                }
            }
            i = i + 1;
        }
        proof {
            assert forall|k: ChunkCoord| #[trigger] r@.contains(k) == (self@.contains_key(k) && self@[k].dirty && !self@[k].building) by {
                if self@.contains_key(k) {
                    let j = choose|j: int| 0 <= j < self.chunks@.len() && (#[trigger] self.chunks@[j]).position == k;
                    lemma_map_at(self.chunks@, j);
                }
                if exists|j: int| 0 <= j < self.chunks@.len() && (#[trigger] self.chunks@[j]).position == k && self.chunks@[j].dirty && !self.chunks@[j].building {
                    let j = choose|j: int| 0 <= j < self.chunks@.len() && (#[trigger] self.chunks@[j]).position == k && self.chunks@[j].dirty && !self.chunks@[j].building;
                    lemma_map_at(self.chunks@, j);
                }
            }
        }
        r
    }
}

} // verus!
