use vstd::prelude::*;
use crate::coords::{abs, ChunkCoord};

verus! {

/// A chunk position the controller keeps loaded, with the last time (in
/// milliseconds) at which it lay inside the render distance.
#[derive(Clone, Copy, Debug, PartialEq, Eq, Structural)]
pub struct StreamEntry {
    pub coord: ChunkCoord,
    pub last_wanted_ms: u64,
}

/// Column streaming: the wanted chunks form one layer (`y == 0`), a square
/// of side `2 * r + 1` around the observer's column, so Chebyshev distance
/// at most `r` in x and z.
pub open spec fn wanted(center: ChunkCoord, r: int, k: ChunkCoord) -> bool {
    &&& k.y == 0
    &&& abs(k.x - center.x) <= r
    &&& abs(k.z - center.z) <= r
}

/// Manhattan distance between the columns of two chunk positions.
pub open spec fn column_distance(a: ChunkCoord, b: ChunkCoord) -> int {
    abs(a.x - b.x) + abs(a.z - b.z)
}

/// Time since `last`; a clock that went backwards counts as no time.
pub open spec fn elapsed(now: int, last: int) -> int {
    if now >= last {
        now - last
    } else {
        0
    }
}

pub open spec fn within_grace(now: int, last: int, grace: int) -> bool {
    elapsed(now, last) < grace
}

/// The kept positions after a tick at `now` with the observer in chunk
/// `center`: every wanted position, stamped `now`, and every other kept
/// position whose grace period has not run out, unchanged.
pub open spec fn next_entries(
    m: Map<ChunkCoord, u64>,
    r: int,
    grace: int,
    center: ChunkCoord,
    now: u64,
) -> Map<ChunkCoord, u64> {
    Map::new(
        |k: ChunkCoord|
            wanted(center, r, k) || (m.contains_key(k) && within_grace(
                now as int,
                m[k] as int,
                grace,
            )),
        |k: ChunkCoord|
            if wanted(center, r, k) {
                now
            } else {
                m[k]
            },
    )
}

/// A tick loads the wanted positions that were not kept.
pub open spec fn to_load(m: Map<ChunkCoord, u64>, r: int, center: ChunkCoord, k: ChunkCoord) -> bool {
    wanted(center, r, k) && !m.contains_key(k)
}

/// A tick unloads the kept positions that are not wanted and whose grace
/// period has run out.
pub open spec fn to_unload(
    m: Map<ChunkCoord, u64>,
    r: int,
    grace: int,
    center: ChunkCoord,
    now: u64,
    k: ChunkCoord,
) -> bool {
    m.contains_key(k) && !wanted(center, r, k) && !within_grace(now as int, m[k] as int, grace)
}

/// The work a tick asks for: positions to load, nearest first, and positions
/// to unload.
pub struct StreamPlan {
    pub load: Vec<ChunkCoord>,
    pub unload: Vec<ChunkCoord>,
}

pub open spec fn has_coord(s: Seq<StreamEntry>, c: ChunkCoord) -> bool {
    exists|i: int| 0 <= i < s.len() && (#[trigger] s[i]).coord == c
}

pub open spec fn coords_unique(s: Seq<StreamEntry>) -> bool {
    forall|i: int, j: int|
        0 <= i < s.len() && 0 <= j < s.len() && i != j ==> (#[trigger] s[i]).coord != (
        #[trigger] s[j]).coord
}

pub open spec fn entry_map(s: Seq<StreamEntry>) -> Map<ChunkCoord, u64> {
    Map::new(
        |c: ChunkCoord| has_coord(s, c),
        |c: ChunkCoord|
            s[choose|i: int| 0 <= i < s.len() && (#[trigger] s[i]).coord == c].last_wanted_ms,
    )
}

proof fn lemma_entry_at(s: Seq<StreamEntry>, i: int)
    requires
        coords_unique(s),
        0 <= i < s.len(),
    ensures
        entry_map(s).contains_key(s[i].coord),
        entry_map(s)[s[i].coord] == s[i].last_wanted_ms,
{
    let c = s[i].coord;
    assert(has_coord(s, c));
    let j = choose|j: int| 0 <= j < s.len() && (#[trigger] s[j]).coord == c;
    assert(i == j);
}

proof fn lemma_entry_push(s: Seq<StreamEntry>, t: StreamEntry)
    requires
        coords_unique(s),
        !has_coord(s, t.coord),
    ensures
        coords_unique(s.push(t)),
        entry_map(s.push(t)) == entry_map(s).insert(t.coord, t.last_wanted_ms),
{
    let u = s.push(t);
    assert forall|i: int, j: int|
        0 <= i < u.len() && 0 <= j < u.len() && i != j implies (#[trigger] u[i]).coord != (
        #[trigger] u[j]).coord by {
        if i < s.len() && j < s.len() {
            assert(u[i] == s[i] && u[j] == s[j]);
        } else if i < s.len() {
            assert(u[i] == s[i]);
        } else {
            assert(u[j] == s[j]);
        }
    }
    assert forall|c: ChunkCoord| has_coord(u, c) == (has_coord(s, c) || c == t.coord) by {
        if has_coord(s, c) {
            let i = choose|i: int| 0 <= i < s.len() && (#[trigger] s[i]).coord == c;
            assert(u[i] == s[i]);
        }
        if has_coord(u, c) {
            let i = choose|i: int| 0 <= i < u.len() && (#[trigger] u[i]).coord == c;
            if i < s.len() {
                assert(u[i] == s[i]);
            }
        }
        assert(u[s.len() as int] == t);
    }
    assert forall|c: ChunkCoord| #[trigger] entry_map(u).contains_key(c) implies entry_map(
        u,
    )[c] == entry_map(s).insert(t.coord, t.last_wanted_ms)[c] by {
        let i = choose|i: int| 0 <= i < u.len() && (#[trigger] u[i]).coord == c;
        lemma_entry_at(u, i);
        if i < s.len() {
            assert(u[i] == s[i]);
            lemma_entry_at(s, i);
        }
    }
    assert(entry_map(u) =~= entry_map(s).insert(t.coord, t.last_wanted_ms));
}

fn find(s: &Vec<StreamEntry>, c: ChunkCoord) -> (r: bool)
    ensures
        r == has_coord(s@, c),
{
    let mut i: usize = 0;
    while i < s.len()
        invariant
            i <= s@.len(),
            forall|j: int| 0 <= j < i ==> (#[trigger] s@[j]).coord != c,
        decreases s@.len() - i,
    {
        if s[i].coord == c {
            return true;
        }
        i = i + 1;
    }
    false
}

/// What the rebuilt entry list holds while a tick runs: the old positions that
/// stay, plus the positions in `visited`, which are all wanted; `load` holds
/// exactly the visited positions that were not kept before.
spec fn rebuild_state(
    entries: Seq<StreamEntry>,
    load: Seq<ChunkCoord>,
    m: Map<ChunkCoord, u64>,
    r: int,
    grace: int,
    center: ChunkCoord,
    now: u64,
    visited: Set<ChunkCoord>,
) -> bool {
    &&& coords_unique(entries)
    &&& forall|k: ChunkCoord|
        #[trigger] has_coord(entries, k) == ((m.contains_key(k) && (wanted(center, r, k)
            || within_grace(now as int, m[k] as int, grace))) || visited.contains(k))
    &&& forall|k: ChunkCoord|
        #[trigger] entry_map(entries).contains_key(k) ==> entry_map(entries)[k] == if wanted(
            center,
            r,
            k,
        ) {
            now
        } else {
            m[k]
        }
    &&& forall|k: ChunkCoord| #[trigger] load.contains(k) == (visited.contains(k) && !m.contains_key(k))
    &&& forall|k: ChunkCoord| #[trigger] visited.contains(k) ==> wanted(center, r, k)
}

/// Wanted positions before the cursor `(d, dx)` in the order nearest first,
/// then by x offset.
spec fn visited_before(center: ChunkCoord, r: int, d: int, dx: int) -> Set<ChunkCoord> {
    Set::new(
        |k: ChunkCoord|
            wanted(center, r, k) && (column_distance(k, center) < d || (column_distance(k, center)
                == d && k.x - center.x < dx)),
    )
}

fn visit(
    entries: &mut Vec<StreamEntry>,
    load: &mut Vec<ChunkCoord>,
    k: ChunkCoord,
    now: u64,
    Ghost(m): Ghost<Map<ChunkCoord, u64>>,
    Ghost(r): Ghost<int>,
    Ghost(grace): Ghost<int>,
    Ghost(center): Ghost<ChunkCoord>,
    Ghost(visited): Ghost<Set<ChunkCoord>>,
)
    requires
        rebuild_state(old(entries)@, old(load)@, m, r, grace, center, now, visited),
        wanted(center, r, k),
    ensures
        rebuild_state(final(entries)@, final(load)@, m, r, grace, center, now, visited.insert(k)),
        final(load)@ == old(load)@ || final(load)@ == old(load)@.push(k),
{
    if find(entries, k) {
        proof {
            assert forall|c: ChunkCoord| #[trigger] load@.contains(c) == (visited.insert(k).contains(c) && !m.contains_key(c)) by {
                if c == k && !visited.contains(k) {
                    assert(m.contains_key(k));
                }
            }
        }
        return;
    }
    let e = StreamEntry { coord: k, last_wanted_ms: now };
    let ghost e0 = entries@;
    let ghost l0 = load@;
    proof {
        lemma_entry_push(e0, e);
    }
    entries.push(e);
    load.push(k);
    proof {
        assert forall|c: ChunkCoord| #[trigger] has_coord(entries@, c) == ((m.contains_key(c) && (wanted(center, r, c)
            || within_grace(now as int, m[c] as int, grace))) || visited.insert(k).contains(c)) by {
            assert(has_coord(entries@, c) == (has_coord(e0, c) || c == k)) by {
                assert(entry_map(entries@).contains_key(c) == (entry_map(e0).contains_key(c) || c == k));
            }
        }
        assert forall|c: ChunkCoord| #[trigger] load@.contains(c) == (visited.insert(k).contains(c) && !m.contains_key(c)) by {
            if l0.contains(c) {
                let q = choose|q: int| 0 <= q < l0.len() && l0[q] == c;
                assert(load@[q] == c);
            }
            if c == k {
                assert(load@[l0.len() as int] == k);
            }
            if load@.contains(c) && c != k {
                let q = choose|q: int| 0 <= q < load@.len() && load@[q] == c;
                assert(l0[q] == c);
            }
        }
        assert forall|c: ChunkCoord| #[trigger] entry_map(entries@).contains_key(c) implies entry_map(entries@)[c] == if wanted(center, r, c) {
            now
        } else {
            m[c]
        } by {
            if c != k {
                assert(entry_map(e0).contains_key(c));
            }
        }
    }
}

/// Decides which chunk positions must be loaded and which may go, as the
/// observer moves: everything within the render distance is wanted, and a
/// position that stops being wanted stays for a grace period before it is
/// unloaded, so an observer that moves back and forth across the edge does
/// not make chunks load and unload over and over.
pub struct StreamingController {
    center: Option<ChunkCoord>,
    render_distance: u32,
    grace_ms: u64,
    entries: Vec<StreamEntry>,
}

impl View for StreamingController {
    type V = Map<ChunkCoord, u64>;

    /// Kept positions and the last time each was wanted.
    closed spec fn view(&self) -> Map<ChunkCoord, u64> {
        entry_map(self.entries@)
    }
}

impl StreamingController {
    pub closed spec fn spec_center(&self) -> Option<ChunkCoord> {
        self.center
    }

    pub closed spec fn spec_render_distance(&self) -> int {
        self.render_distance as int
    }

    pub closed spec fn spec_grace_ms(&self) -> int {
        self.grace_ms as int
    }

    /// Kept positions are unique, and once the observer has been seen
    /// every position wanted around it is kept.
    pub closed spec fn wf(&self) -> bool {
        &&& coords_unique(self.entries@)
        &&& self.render_distance <= i32::MAX
        &&& self.center matches Some(c) ==> forall|k: ChunkCoord|
            wanted(c, self.render_distance as int, k) ==> #[trigger] has_coord(self.entries@, k)
    }

    pub fn new(render_distance: u32, grace_ms: u64) -> (r: StreamingController)
        requires
            render_distance <= i32::MAX,
        ensures
            r.wf(),
            r@ == Map::<ChunkCoord, u64>::empty(),
            r.spec_center() is None,
            r.spec_render_distance() == render_distance,
            r.spec_grace_ms() == grace_ms,
    {
        let r = StreamingController { center: None, render_distance, grace_ms, entries: Vec::new() };
        assert(r@ =~= Map::<ChunkCoord, u64>::empty());
        r
    }

    pub fn render_distance(&self) -> (r: u32)
        ensures
            r == self.spec_render_distance(),
    {
        self.render_distance
    }

    pub fn grace_ms(&self) -> (r: u64)
        ensures
            r == self.spec_grace_ms(),
    {
        self.grace_ms
    }

    /// Whether position `c` is kept (loading or loaded).
    pub fn is_kept(&self, c: ChunkCoord) -> (r: bool)
        ensures
            r == self@.contains_key(c),
    {
        find(&self.entries, c)
    }

    /// One streaming step with the observer in chunk `observer` at time
    /// `now`. Every position within the render distance becomes kept and
    /// stamped `now`; those not kept before are to be loaded, nearest first.
    /// A kept position outside the render distance stays until it has been
    /// unwanted for the grace period, and is then to be unloaded. The wanted
    /// positions are enumerated only when the observer's chunk changed.
    pub fn tick(&mut self, observer: ChunkCoord, now: u64) -> (plan: StreamPlan)
        requires
            old(self).wf(),
            i32::MIN <= observer.x - old(self).spec_render_distance(),
            observer.x + old(self).spec_render_distance() <= i32::MAX,
            i32::MIN <= observer.z - old(self).spec_render_distance(),
            observer.z + old(self).spec_render_distance() <= i32::MAX,
        ensures
            final(self).wf(),
            final(self).spec_center() == Some(observer),
            final(self).spec_render_distance() == old(self).spec_render_distance(),
            final(self).spec_grace_ms() == old(self).spec_grace_ms(),
            final(self)@ == next_entries(
                old(self)@,
                old(self).spec_render_distance(),
                old(self).spec_grace_ms(),
                observer,
                now,
            ),
            forall|k: ChunkCoord|
                #[trigger] plan.load@.contains(k) == to_load(
                    old(self)@,
                    old(self).spec_render_distance(),
                    observer,
                    k,
                ),
            forall|k: ChunkCoord|
                #[trigger] plan.unload@.contains(k) == to_unload(
                    old(self)@,
                    old(self).spec_render_distance(),
                    old(self).spec_grace_ms(),
                    observer,
                    now,
                    k,
                ),
            forall|i: int, j: int|
                0 <= i < j < plan.load@.len() ==> column_distance(#[trigger] plan.load@[i], observer)
                    <= column_distance(#[trigger] plan.load@[j], observer),
    {
        let ghost m = self@;
        let ghost rd = self.render_distance as int;
        let ghost grace = self.grace_ms as int;
        let mut entries: Vec<StreamEntry> = Vec::new();
        let mut load: Vec<ChunkCoord> = Vec::new();
        let mut unload: Vec<ChunkCoord> = Vec::new();
        let mut i: usize = 0;
        while i < self.entries.len()
            invariant
                self.wf(),
                m == self@,
                rd == self.render_distance,
                grace == self.grace_ms,
                i <= self.entries@.len(),
                load@.len() == 0,
                coords_unique(entries@),
                forall|k: ChunkCoord|
                    #[trigger] has_coord(entries@, k) == ((exists|j: int| 0 <= j < i && (#[trigger] self.entries@[j]).coord == k)
                        && (wanted(observer, rd, k) || within_grace(now as int, m[k] as int, grace))),
                forall|k: ChunkCoord|
                    #[trigger] entry_map(entries@).contains_key(k) ==> entry_map(entries@)[k] == if wanted(observer, rd, k) {
                        now
                    } else {
                        m[k]
                    },
                forall|k: ChunkCoord|
                    #[trigger] unload@.contains(k) == ((exists|j: int| 0 <= j < i && (#[trigger] self.entries@[j]).coord == k)
                        && !wanted(observer, rd, k) && !within_grace(now as int, m[k] as int, grace)),
            decreases self.entries@.len() - i,
        {
            let e = self.entries[i];
            proof {
                lemma_entry_at(self.entries@, i as int);
            }
            let ghost e0 = entries@;
            let ghost u0 = unload@;
            let want = is_wanted(observer, self.render_distance, e.coord);
            let elapsed_ms = if now >= e.last_wanted_ms {
                now - e.last_wanted_ms
            } else {
                0
            };
            let ghost pushed: bool = false;
            if want || elapsed_ms < self.grace_ms {
                let stamp = if want {
                    now
                } else {
                    e.last_wanted_ms
                };
                let ne = StreamEntry { coord: e.coord, last_wanted_ms: stamp };
                proof {
                    assert(!has_coord(e0, e.coord)) by {
                        if has_coord(e0, e.coord) {
                            let j = choose|j: int| 0 <= j < i && (#[trigger] self.entries@[j]).coord == e.coord;
                            assert(j != i);
                        }
                    }
                    lemma_entry_push(e0, ne);
                }
                entries.push(ne);
            } else {
                unload.push(e.coord);
            }
            proof {
                assert forall|k: ChunkCoord|
                    #[trigger] has_coord(entries@, k) == ((exists|j: int| 0 <= j < i + 1 && (#[trigger] self.entries@[j]).coord == k)
                        && (wanted(observer, rd, k) || within_grace(now as int, m[k] as int, grace))) by {
                    if exists|j: int| 0 <= j < i + 1 && (#[trigger] self.entries@[j]).coord == k {
                        let j = choose|j: int| 0 <= j < i + 1 && (#[trigger] self.entries@[j]).coord == k;
                        if j < i {
                            assert(exists|j: int| 0 <= j < i && (#[trigger] self.entries@[j]).coord == k);
                        }
                    }
                    if k == e.coord {
                        assert(self.entries@[i as int].coord == k);
                    }
                    if entries@.len() > e0.len() {
                        assert(entry_map(entries@).contains_key(k) == (entry_map(e0).contains_key(k) || k == e.coord));
                    }
                }
                assert forall|k: ChunkCoord|
                    #[trigger] entry_map(entries@).contains_key(k) implies entry_map(entries@)[k] == if wanted(observer, rd, k) {
                        now
                    } else {
                        m[k]
                    } by {
                    if k != e.coord && entries@.len() > e0.len() {
                        assert(entry_map(e0).contains_key(k));
                    }
                }
                assert forall|k: ChunkCoord|
                    #[trigger] unload@.contains(k) == ((exists|j: int| 0 <= j < i + 1 && (#[trigger] self.entries@[j]).coord == k)
                        && !wanted(observer, rd, k) && !within_grace(now as int, m[k] as int, grace)) by {
                    if exists|j: int| 0 <= j < i + 1 && (#[trigger] self.entries@[j]).coord == k {
                        let j = choose|j: int| 0 <= j < i + 1 && (#[trigger] self.entries@[j]).coord == k;
                        if j < i {
                            assert(exists|j: int| 0 <= j < i && (#[trigger] self.entries@[j]).coord == k);
                        }
                    }
                    if k == e.coord {
                        assert(self.entries@[i as int].coord == k);
                    }
                    if unload@.len() > u0.len() {
                        if u0.contains(k) {
                            let q = choose|q: int| 0 <= q < u0.len() && u0[q] == k;
                            assert(unload@[q] == k);
                        }
                        if k == e.coord {
                            assert(unload@[u0.len() as int] == k);
                        }
                        if unload@.contains(k) && k != e.coord {
                            let q = choose|q: int| 0 <= q < unload@.len() && unload@[q] == k;
                            assert(u0[q] == k);
                        }
                    }
                }
            }
            i = i + 1;
        }
        proof {
            assert(rebuild_state(entries@, load@, m, rd, grace, observer, now, Set::empty())) by {
                assert forall|k: ChunkCoord| #[trigger] has_coord(entries@, k) == ((m.contains_key(k) && (wanted(observer, rd, k)
                    || within_grace(now as int, m[k] as int, grace))) || Set::<ChunkCoord>::empty().contains(k)) by {
                    if m.contains_key(k) {
                        assert(has_coord(self.entries@, k));
                        let j = choose|j: int| 0 <= j < self.entries@.len() && (#[trigger] self.entries@[j]).coord == k;
                        assert(exists|j: int| 0 <= j < self.entries@.len() && (#[trigger] self.entries@[j]).coord == k);
                    }
                }
            }
        }
        let ghost visited0: Set<ChunkCoord> = Set::empty();
        let same_center = match self.center {
            Some(c) => c == observer,
            None => false,
        };
        if !same_center {
            let r = self.render_distance as i64;
            let cx = observer.x as i64;
            let cz = observer.z as i64;
            proof {
                assert(visited_before(observer, rd, 0, -rd) =~= Set::<ChunkCoord>::empty());
            }
            let mut d: i64 = 0;
            while d <= 2 * r
                invariant
                    rd == r,
                    0 <= r <= i32::MAX,
                    cx == observer.x,
                    cz == observer.z,
                    i32::MIN <= cx - r,
                    cx + r <= i32::MAX,
                    i32::MIN <= cz - r,
                    cz + r <= i32::MAX,
                    0 <= d <= 2 * r + 1,
                    rebuild_state(entries@, load@, m, rd, grace, observer, now, visited_before(observer, rd, d as int, -rd)),
                    forall|a: int, b: int|
                        0 <= a < b < load@.len() ==> column_distance(#[trigger] load@[a], observer)
                            <= column_distance(#[trigger] load@[b], observer),
                    forall|a: int| 0 <= a < load@.len() ==> column_distance(#[trigger] load@[a], observer) < d,
                decreases 2 * r + 1 - d,
            {
                let mut dx: i64 = -r;
                while dx <= r
                    invariant
                        rd == r,
                        0 <= r <= i32::MAX,
                        cx == observer.x,
                        cz == observer.z,
                        i32::MIN <= cx - r,
                        cx + r <= i32::MAX,
                        i32::MIN <= cz - r,
                        cz + r <= i32::MAX,
                        0 <= d <= 2 * r,
                        -r <= dx <= r + 1,
                        rebuild_state(entries@, load@, m, rd, grace, observer, now, visited_before(observer, rd, d as int, dx as int)),
                        forall|a: int, b: int|
                            0 <= a < b < load@.len() ==> column_distance(#[trigger] load@[a], observer)
                                <= column_distance(#[trigger] load@[b], observer),
                        forall|a: int| 0 <= a < load@.len() ==> column_distance(#[trigger] load@[a], observer) <= d,
                    decreases r + 1 - dx,
                {
                    let adx = if dx < 0 {
                        -dx
                    } else {
                        dx
                    };
                    let rem = d - adx;
                    let ghost before = visited_before(observer, rd, d as int, dx as int);
                    if 0 <= rem && rem <= r {
                        let low = ChunkCoord { x: (cx + dx) as i32, y: 0, z: (cz - rem) as i32 };
                        let high = ChunkCoord { x: (cx + dx) as i32, y: 0, z: (cz + rem) as i32 };
                        let ghost l0 = load@;
                        visit(&mut entries, &mut load, low, now, Ghost(m), Ghost(rd), Ghost(grace), Ghost(observer), Ghost(before));
                        proof {
                            assert forall|a: int, b: int|
                                0 <= a < b < load@.len() implies column_distance(#[trigger] load@[a], observer)
                                    <= column_distance(#[trigger] load@[b], observer) by {
                                if load@.len() > l0.len() {
                                    assert(load@[a] == l0[a] || a == l0.len());
                                    assert(b < l0.len() ==> load@[b] == l0[b]);
                                }
                            }
                        }
                        let ghost l1 = load@;
                        visit(&mut entries, &mut load, high, now, Ghost(m), Ghost(rd), Ghost(grace), Ghost(observer), Ghost(before.insert(low)));
                        proof {
                            assert forall|a: int, b: int|
                                0 <= a < b < load@.len() implies column_distance(#[trigger] load@[a], observer)
                                    <= column_distance(#[trigger] load@[b], observer) by {
                                if load@.len() > l1.len() {
                                    assert(b < l1.len() ==> load@[b] == l1[b]);
                                    assert(a < l1.len() ==> load@[a] == l1[a]);
                                }
                            }
                            assert(visited_before(observer, rd, d as int, dx + 1) =~= before.insert(low).insert(high)) by {
                                assert forall|k: ChunkCoord| #[trigger] visited_before(observer, rd, d as int, dx + 1).contains(k) == before.insert(low).insert(high).contains(k) by {
                                    if wanted(observer, rd, k) && column_distance(k, observer) == d && k.x - observer.x == dx {
                                        if k.z - observer.z < 0 {
                                            assert(k == low);
                                        } else {
                                            assert(k == high);
                                        }
                                    }
                                }
                            }
                        }
                    } else {
                        proof {
                            assert(visited_before(observer, rd, d as int, dx + 1) =~= before);
                        }
                    }
                    dx = dx + 1;
                }
                proof {
                    assert(visited_before(observer, rd, d as int, rd + 1) =~= visited_before(observer, rd, d + 1, -rd));
                }
                d = d + 1;
            }
            proof {
                assert(visited_before(observer, rd, 2 * rd + 1, -rd) =~= Set::new(|k: ChunkCoord| wanted(observer, rd, k)));
            }
        } else {
            proof {
                assert(Set::<ChunkCoord>::empty() =~= Set::new(|k: ChunkCoord| wanted(observer, rd, k) && !m.contains_key(k)));
            }
        }
        let ghost last = entries@;
        proof {
            assert(entry_map(last) =~= next_entries(m, rd, grace, observer, now));
        }
        self.center = Some(observer);
        self.entries = entries;
        StreamPlan { load, unload }
    }
}

fn is_wanted(center: ChunkCoord, r: u32, k: ChunkCoord) -> (w: bool)
    ensures
        w == wanted(center, r as int, k),
{
    let dx = k.x as i64 - center.x as i64;
    let dz = k.z as i64 - center.z as i64;
    let adx = if dx < 0 {
        -dx
    } else {
        dx
    };
    let adz = if dz < 0 {
        -dz
    } else {
        dz
    };
    k.y == 0 && adx <= r as i64 && adz <= r as i64
}

/// After a tick, the kept positions are exactly the positions within the
/// render distance of the observer's chunk, together with the positions kept
/// before whose grace period has not run out.
pub proof fn lemma_settled_positions(
    m: Map<ChunkCoord, u64>,
    r: int,
    grace: int,
    center: ChunkCoord,
    now: u64,
)
    ensures
        forall|k: ChunkCoord|
            #[trigger] next_entries(m, r, grace, center, now).contains_key(k) == (wanted(center, r, k)
                || (m.contains_key(k) && !wanted(center, r, k) && within_grace(now as int, m[k] as int, grace))),
{
}

/// A kept position that leaves the render distance and comes back before its
/// grace period runs out is never unloaded and never loaded again: over the
/// tick that sees it leave (at `t1`) and the tick that sees it back (at `t2`)
/// it stays kept throughout.
pub proof fn lemma_grace_prevents_reload(
    m0: Map<ChunkCoord, u64>,
    r: int,
    grace: int,
    leave: ChunkCoord,
    t1: u64,
    back: ChunkCoord,
    t2: u64,
    k: ChunkCoord,
)
    requires
        m0.contains_key(k),
        m0[k] <= t1 <= t2,
        !wanted(leave, r, k),
        wanted(back, r, k),
        elapsed(t2 as int, m0[k] as int) < grace,
    ensures
        ({
            let m1 = next_entries(m0, r, grace, leave, t1);
            let m2 = next_entries(m1, r, grace, back, t2);
            &&& m1.contains_key(k)
            &&& m2.contains_key(k)
            &&& !to_unload(m0, r, grace, leave, t1, k)
            &&& !to_load(m0, r, leave, k)
            &&& !to_unload(m1, r, grace, back, t2, k)
            &&& !to_load(m1, r, back, k)
        }),
{
}

} // verus!
