use vstd::prelude::*;

use bevy::platform::collections::HashSet;

use crate::chunk::{clamp_spec, in_bounds_spec, ChunkCoords, ChunkData, CHUNK_VOLUME, LAYER_SIZE};
use crate::mesh::MeshData;
use crate::spawned::{chunk_set, chunk_set_contains, chunk_set_insert, empty_chunk_set};
use crate::spiral::{
    cells_within, incoming_dir, lemma_index_bound, lemma_index_injective, lemma_spiral_step,
    lemma_walk_index, outgoing_dir, ring, spiral_index, spiral_next,
    spiral_walk,
};
use crate::terrain_noise::TerrainNoise;
use crate::voxel::Voxel;

verus! {

/// How far around the center chunks are streamed, and how many jobs may run at once.
#[derive(Clone, Copy, Debug)]
pub struct TerrainConfig {
    pub radius: i32,
    pub threads: usize,
}

/// Cursor of the square-spiral walk around `center`: the current offset and the
/// direction of the step that reached it.
#[derive(Clone, Copy, Debug)]
pub struct TerrainSpiralState {
    pub center: ChunkCoords,
    pub spiral_x: i32,
    pub spiral_y: i32,
    pub dx: i32,
    pub dy: i32,
}

/// The chunk-streaming scheduler: picks chunks in spiral order around the center,
/// remembers every chunk it has requested, and counts the jobs in flight.
pub struct TerrainManager {
    pub config: TerrainConfig,
    pub spiral_state: TerrainSpiralState,
    pub spawned_chunks: HashSet<(i32, i32)>,
    pub active_permits: usize,
    pub noise_handle: TerrainNoise,
}

/// Number of the solid cells of a column of height `h` (clamped to the chunk).
pub open spec fn fill_height(h: i32) -> int {
    clamp_spec(h as int, 0, 128)
}

/// The cells of the chunk whose cell `c + y * LAYER_SIZE` is solid exactly when `y`
/// lies below the clamped height of column `c`.
pub open spec fn column_fill(heights: Seq<i32>) -> Seq<Voxel> {
    Seq::new(
        CHUNK_VOLUME as nat,
        |i: int|
            if i / 256 < fill_height(heights[i % 256]) {
                Voxel::Solid
            } else {
                Voxel::Air
            },
    )
}

/// Determinism of generation: chunks generated from equal column heights are
/// identical, cell for cell.
pub proof fn lemma_generation_deterministic(h1: Seq<i32>, h2: Seq<i32>, c1: ChunkData, c2: ChunkData)
    requires
        h1 == h2,
        c1.voxels@ == column_fill(h1),
        c2.voxels@ == column_fill(h2),
    ensures
        c1.voxels@ == c2.voxels@,
        forall|x: int, y: int, z: int| #[trigger] c1.cell(x, y, z) == c2.cell(x, y, z),
{
}

/// With nothing requested yet, a pick takes exactly the offset that the spiral walk
/// reaches at the cursor's step, and finds none only once the walk has covered the
/// radius.
pub proof fn lemma_pick_follows_walk(old: &TerrainManager, new: &TerrainManager, r: Option<ChunkCoords>)
    requires
        old.wf(),
        old.spawned_view() == Set::<(int, int)>::empty(),
        TerrainManager::picks(old, new, r),
    ensures
        r matches Some(p) ==> (p.x - old.spiral_state.center.x, p.z - old.spiral_state.center.z)
            == spiral_walk(old.step() as nat) && new.step() == old.step() + 1,
        r is None ==> old.step() == old.steps_in_radius() && new.step() == old.step(),
{
    let n0 = old.step();
    lemma_index_bound(old.offset().0, old.offset().1, old.config.radius as int);
    let w = spiral_walk(n0 as nat);
    lemma_walk_index(n0 as nat);
    match r {
        Some(p) => {
            let o = (p.x - old.spiral_state.center.x, p.z - old.spiral_state.center.z);
            if spiral_index(o.0, o.1) > n0 {
                assert(old.spawned_view().contains(old.target((w.0, w.1))));
            }
            lemma_index_injective(o.0, o.1, w.0, w.1);
        },
        None => {
            if n0 < old.steps_in_radius() {
                assert(old.spawned_view().contains(old.target((w.0, w.1))));
            }
        },
    }
}

/// `ms[k + 1]` is what a pick made of `ms[k]`, returning `rs[k]`.
pub open spec fn pick_step(ms: Seq<TerrainManager>, rs: Seq<Option<ChunkCoords>>, k: int) -> bool {
    &&& TerrainManager::picks(&ms[k], &ms[k + 1], rs[k])
    &&& ms[k + 1].wf()
    &&& ms[k + 1].same_but_cursor(&ms[k])
}

/// The offset from `center` of the chunk a pick returned.
pub open spec fn pick_offset(center: ChunkCoords, r: Option<ChunkCoords>) -> (int, int) {
    match r {
        Some(p) => (p.x - center.x, p.z - center.z),
        None => (0, 0),
    }
}

/// A pick returned the chunk at step `k` of the spiral walk around `center`.
pub open spec fn picked_at(center: ChunkCoords, r: Option<ChunkCoords>, k: nat) -> bool {
    match r {
        Some(p) => (p.x - center.x, p.z - center.z) == spiral_walk(k),
        None => false,
    }
}

/// The picks `rs` are every chunk within `radius` of `center`, each once, the first at
/// the center and nearest ring first.
pub open spec fn picks_cover(c: ChunkCoords, rs: Seq<Option<ChunkCoords>>, radius: int) -> bool {
    &&& rs.len() >= 1 ==> pick_offset(c, rs[0]) == (0int, 0int)
    &&& forall|k1: int, k2: int|
        0 <= k1 < k2 < rs.len() ==> pick_offset(c, #[trigger] rs[k1]) != pick_offset(c, #[trigger] rs[k2])
    &&& forall|x: int, y: int|
        ring(x, y) <= radius ==> exists|k: int| 0 <= k < rs.len() && pick_offset(c, #[trigger] rs[k]) == (x, y)
    &&& forall|k: int|
        0 <= k && k + 1 < rs.len() ==> ring(pick_offset(c, #[trigger] rs[k]).0, pick_offset(c, rs[k]).1)
            <= ring(pick_offset(c, rs[k + 1]).0, pick_offset(c, rs[k + 1]).1)
}

/// Picks that follow the spiral walk for all of its steps within `radius` cover it.
proof fn lemma_picks_cover(c: ChunkCoords, rs: Seq<Option<ChunkCoords>>, radius: int)
    requires
        radius >= 0,
        rs.len() == cells_within(radius),
        forall|k: int| 0 <= k < rs.len() ==> picked_at(c, #[trigger] rs[k], k as nat),
    ensures
        picks_cover(c, rs, radius),
{
    let n = rs.len() as int;
    assert(rs.len() >= 1 ==> pick_offset(c, rs[0]) == (0int, 0int)) by {
        lemma_index_bound(0, 0, radius);
        assert(spiral_walk(0) == (0int, 0int));
        assert(picked_at(c, rs[0], 0));
    }
    assert forall|k1: int, k2: int| 0 <= k1 < k2 < n implies pick_offset(c, #[trigger] rs[k1]) != pick_offset(
        c,
        #[trigger] rs[k2],
    ) by {
        assert(picked_at(c, rs[k1], k1 as nat) && picked_at(c, rs[k2], k2 as nat));
        if spiral_walk(k1 as nat) == spiral_walk(k2 as nat) {
            lemma_walk_index(k1 as nat);
            lemma_walk_index(k2 as nat);
        }
    }
    assert forall|x: int, y: int| ring(x, y) <= radius implies exists|k: int|
        0 <= k < n && pick_offset(c, #[trigger] rs[k]) == (x, y) by {
        lemma_index_bound(x, y, radius);
        let k = spiral_index(x, y);
        lemma_walk_index(k as nat);
        lemma_index_injective(spiral_walk(k as nat).0, spiral_walk(k as nat).1, x, y);
        assert(picked_at(c, rs[k], k as nat));
        assert(pick_offset(c, rs[k]) == (x, y));
    }
    assert forall|k: int| 0 <= k && k + 1 < n implies ring(
        pick_offset(c, #[trigger] rs[k]).0,
        pick_offset(c, rs[k]).1,
    ) <= ring(pick_offset(c, rs[k + 1]).0, pick_offset(c, rs[k + 1]).1) by {
        assert(picked_at(c, rs[k], k as nat) && picked_at(c, rs[k + 1], (k + 1) as nat));
        lemma_spiral_step(spiral_walk(k as nat).0, spiral_walk(k as nat).1);
        assert(spiral_walk((k + 1) as nat) == spiral_next(spiral_walk(k as nat).0, spiral_walk(k as nat).1));
    }
}

/// Spiral coverage over repeated picks: starting at the center with nothing
/// requested, a run of picks that ends at its first `None` returns, in order, the
/// chunk at each step of the spiral walk, `cells_within(radius)` of them: every chunk
/// within the radius, each once, the first at the center and nearest ring first.
pub proof fn lemma_repeated_picks(ms: Seq<TerrainManager>, rs: Seq<Option<ChunkCoords>>)
    requires
        rs.len() >= 1,
        ms.len() == rs.len() + 1,
        ms[0].wf(),
        ms[0].offset() == (0int, 0int),
        ms[0].spawned_view() == Set::<(int, int)>::empty(),
        forall|k: int| 0 <= k < rs.len() ==> #[trigger] pick_step(ms, rs, k),
        forall|k: int| 0 <= k < rs.len() - 1 ==> (#[trigger] rs[k]) is Some,
        rs.last() is None,
    ensures
        rs.len() == ms[0].steps_in_radius() + 1,
        forall|k: int|
            0 <= k < rs.len() - 1 ==> picked_at(ms[0].spiral_state.center, #[trigger] rs[k], k as nat),
        picks_cover(ms[0].spiral_state.center, rs.take(rs.len() - 1), ms[0].config.radius as int),
{
    let n = rs.len() - 1;
    let c = ms[0].spiral_state.center;
    assert forall|k: int| 0 <= k < n implies picked_at(ms[0].spiral_state.center, #[trigger] rs[k], k as nat) by {
        lemma_picks_prefix(ms, rs, k);
    }
    lemma_picks_prefix(ms, rs, n);
    assert(pick_step(ms, rs, n));
    lemma_pick_follows_walk(&ms[n], &ms[n + 1], rs[n]);
    let radius = ms[0].config.radius as int;
    lemma_picks_cover(c, rs.take(n), radius);
}

proof fn lemma_picks_prefix(ms: Seq<TerrainManager>, rs: Seq<Option<ChunkCoords>>, k: int)
    requires
        rs.len() >= 1,
        ms.len() == rs.len() + 1,
        ms[0].wf(),
        ms[0].offset() == (0int, 0int),
        ms[0].spawned_view() == Set::<(int, int)>::empty(),
        forall|k: int| 0 <= k < rs.len() ==> #[trigger] pick_step(ms, rs, k),
        forall|k: int| 0 <= k < rs.len() - 1 ==> (#[trigger] rs[k]) is Some,
        0 <= k <= rs.len() - 1,
    ensures
        ms[k].step() == k,
        ms[k].wf(),
        ms[k].same_but_cursor(&ms[0]),
        k < rs.len() - 1 ==> picked_at(ms[0].spiral_state.center, rs[k], k as nat),
    decreases k,
{
    if k == 0 {
        assert(spiral_index(0, 0) == 0);
    } else {
        lemma_picks_prefix(ms, rs, k - 1);
        assert(pick_step(ms, rs, k - 1));
        assert(rs[k - 1] is Some);
        lemma_pick_follows_walk(&ms[k - 1], &ms[k], rs[k - 1]);
    }
    if k < rs.len() - 1 {
        assert(pick_step(ms, rs, k));
        assert(rs[k] is Some);
        lemma_pick_follows_walk(&ms[k], &ms[k + 1], rs[k]);
    }
}

impl TerrainManager {
    /// The spiral cursor's offset from the center.
    pub open spec fn offset(&self) -> (int, int) {
        (self.spiral_state.spiral_x as int, self.spiral_state.spiral_y as int)
    }

    /// Steps the spiral walk has taken.
    pub open spec fn step(&self) -> int {
        spiral_index(self.offset().0, self.offset().1)
    }

    /// Steps that cover every offset within the radius.
    pub open spec fn steps_in_radius(&self) -> int {
        cells_within(self.config.radius as int)
    }

    /// The chunk at offset `o` from the center.
    pub open spec fn target(&self, o: (int, int)) -> (int, int) {
        (self.spiral_state.center.x + o.0, self.spiral_state.center.z + o.1)
    }

    /// The requested chunks.
    pub open spec fn spawned_view(&self) -> Set<(int, int)> {
        chunk_set(self.spawned_chunks)
    }

    /// Configuration is sane, the cursor is a state of the spiral walk within one
    /// step past the radius, every offset in reach stays inside `i32`, no more
    /// jobs run than permitted.
    pub open spec fn wf(&self) -> bool {
        let r = self.config.radius as int;
        let c = self.spiral_state.center;
        &&& 0 <= r < i32::MAX
        &&& self.config.threads >= 1
        &&& i32::MIN <= c.x - r - 1 && c.x + r + 1 <= i32::MAX
        &&& i32::MIN <= c.z - r - 1 && c.z + r + 1 <= i32::MAX
        &&& (self.spiral_state.dx as int, self.spiral_state.dy as int) == incoming_dir(
            self.offset().0,
            self.offset().1,
        )
        &&& self.step() <= self.steps_in_radius()
        &&& self.active_permits <= self.config.threads
    }

    /// Every chunk the spiral cursor has passed has been requested.
    pub open spec fn requested_behind(&self) -> bool {
        forall|x: int, y: int|
            #[trigger] spiral_index(x, y) < self.step() ==> self.spawned_view().contains(
                self.target((x, y)),
            )
    }

    /// Every chunk within the radius has been requested.
    pub open spec fn all_requested(&self) -> bool {
        forall|x: int, y: int|
            ring(x, y) <= self.config.radius ==> #[trigger] self.spawned_view().contains(
                self.target((x, y)),
            )
    }

    /// The scheduler was left as it was but for the spiral cursor.
    pub open spec fn same_but_cursor(&self, other: &TerrainManager) -> bool {
        &&& self.config == other.config
        &&& self.spiral_state.center == other.spiral_state.center
        &&& self.spawned_chunks == other.spawned_chunks
        &&& self.active_permits == other.active_permits
        &&& self.noise_handle == other.noise_handle
    }

    /// What a pick from `old` to `new` returning `r` means: the cursor moved to the
    /// first offset, from its old step on, whose chunk was not requested and that
    /// lies within the radius, and stands one step past it; with no such offset left
    /// it stands at the first step past the radius and nothing is picked.
    pub open spec fn picks(old: &TerrainManager, new: &TerrainManager, r: Option<ChunkCoords>) -> bool {
        let n0 = old.step();
        &&& r is None ==> new.step() == old.steps_in_radius() && forall|x: int, y: int|
            n0 <= #[trigger] spiral_index(x, y) < old.steps_in_radius() ==> old.spawned_view().contains(
                old.target((x, y)),
            )
        &&& r matches Some(p) ==> {
            let o = (p.x - old.spiral_state.center.x, p.z - old.spiral_state.center.z);
            &&& ring(o.0, o.1) <= old.config.radius
            &&& n0 <= spiral_index(o.0, o.1)
            &&& !old.spawned_view().contains((p.x as int, p.z as int))
            &&& new.step() == spiral_index(o.0, o.1) + 1
            &&& forall|x: int, y: int|
                n0 <= #[trigger] spiral_index(x, y) < spiral_index(o.0, o.1)
                    ==> old.spawned_view().contains(old.target((x, y)))
        }
    }

    /// A scheduler streaming chunks within `radius` of the origin with at most
    /// `threads` jobs at once; `None` when the radius is negative or `i32::MAX`, or
    /// when no job may run.
    pub fn new(radius: i32, threads: usize, seed: i32) -> (r: Option<TerrainManager>)
        ensures
            r is None <==> (radius < 0 || radius == i32::MAX || threads == 0),
            r matches Some(m) ==> {
                &&& m.wf()
                &&& m.config.radius == radius
                &&& m.config.threads == threads
                &&& m.spiral_state.center == (ChunkCoords { x: 0, z: 0 })
                &&& m.offset() == (0int, 0int)
                &&& m.spawned_view() == Set::<(int, int)>::empty()
                &&& m.active_permits == 0
                &&& m.noise_handle == TerrainNoise::new_spec(seed)
                &&& m.requested_behind()
            },
    {
        if radius < 0 || radius == i32::MAX || threads == 0 {
            return None;
        }
        let m = TerrainManager {
            config: TerrainConfig { radius, threads },
            spiral_state: TerrainSpiralState {
                center: ChunkCoords { x: 0, z: 0 },
                spiral_x: 0,
                spiral_y: 0,
                dx: 0,
                dy: -1,
            },
            spawned_chunks: empty_chunk_set(),
            active_permits: 0,
            noise_handle: TerrainNoise::new(seed),
        };
        proof {
            lemma_index_bound(0, 0, radius as int);
            assert forall|x: int, y: int| #[trigger] spiral_index(x, y) < m.step() implies m.spawned_view().contains(
                m.target((x, y)),
            ) by {
                lemma_index_bound(x, y, radius as int);
            }
        }
        Some(m)
    }

    /// Advances the spiral cursor one step and returns the chunk it stood on.
    fn next_coord(&mut self) -> (r: ChunkCoords)
        requires
            old(self).wf(),
            ring(old(self).offset().0, old(self).offset().1) <= old(self).config.radius,
        ensures
            final(self).wf(),
            final(self).same_but_cursor(old(self)),
            final(self).offset() == spiral_next(old(self).offset().0, old(self).offset().1),
            final(self).step() == old(self).step() + 1,
            (r.x as int, r.z as int) == old(self).target(old(self).offset()),
    {
        proof {
            lemma_index_bound(self.offset().0, self.offset().1, self.config.radius as int);
            lemma_spiral_step(self.offset().0, self.offset().1);
        }
        let x = self.spiral_state.spiral_x;
        let y = self.spiral_state.spiral_y;
        let coord = ChunkCoords {
            x: self.spiral_state.center.x + x,
            z: self.spiral_state.center.z + y,
        };
        if x == y || (x < 0 && x == -y) || (x > 0 && x == 1 - y) {
            let temp = self.spiral_state.dx;
            self.spiral_state.dx = -self.spiral_state.dy;
            self.spiral_state.dy = temp;
        }
        assert((self.spiral_state.dx as int, self.spiral_state.dy as int) == outgoing_dir(x as int, y as int));
        self.spiral_state.spiral_x = x + self.spiral_state.dx;
        self.spiral_state.spiral_y = y + self.spiral_state.dy;
        proof {
            lemma_index_bound(self.offset().0, self.offset().1, self.config.radius as int);
        }
        coord
    }

    /// Walks the spiral on to the next chunk within the radius that was not
    /// requested yet, or reports that none is left.
    pub fn try_get_next_chunk(&mut self) -> (r: Option<ChunkCoords>)
        requires
            old(self).wf(),
        ensures
            final(self).wf(),
            final(self).same_but_cursor(old(self)),
            TerrainManager::picks(old(self), final(self), r),
    {
        let ghost start = *self;
        let radius = self.config.radius;
        loop
            invariant
                self.wf(),
                self.same_but_cursor(&start),
                start == *old(self),
                start.wf(),
                start.step() <= self.step(),
                forall|x: int, y: int|
                    start.step() <= #[trigger] spiral_index(x, y) < self.step()
                        ==> start.spawned_view().contains(start.target((x, y))),
                radius == self.config.radius,
            decreases self.steps_in_radius() - self.step(),
        {
            proof {
                lemma_index_bound(self.offset().0, self.offset().1, radius as int);
            }
            let x = self.spiral_state.spiral_x;
            let y = self.spiral_state.spiral_y;
            let ax = if x < 0 {
                -x
            } else {
                x
            };
            let ay = if y < 0 {
                -y
            } else {
                y
            };
            if ax > radius || ay > radius {
                return None;
            }
            let ghost before = self.offset();
            let coord = self.next_coord();
            if !chunk_set_contains(&self.spawned_chunks, (coord.x, coord.z)) {
                return Some(coord);
            }
            proof {
                assert forall|x: int, y: int|
                    start.step() <= #[trigger] spiral_index(x, y) < self.step()
                        implies start.spawned_view().contains(start.target((x, y))) by {
                    if spiral_index(x, y) == spiral_index(before.0, before.1) {
                        lemma_index_injective(x, y, before.0, before.1);
                    }
                }
            }
        }
    }

    /// Queue step: when a permit is free, picks the next chunk as
    /// `try_get_next_chunk` does, takes a permit for it and records it as requested.
    pub fn queue_next(&mut self) -> (r: Option<ChunkCoords>)
        requires
            old(self).wf(),
        ensures
            final(self).wf(),
            final(self).active_permits <= final(self).config.threads,
            old(self).requested_behind() ==> final(self).requested_behind(),
            old(self).requested_behind() && old(self).active_permits < old(self).config.threads && r is None
                ==> final(self).all_requested(),
            old(self).active_permits >= old(self).config.threads ==> r is None && *final(self)
                == *old(self),
            old(self).active_permits < old(self).config.threads ==> {
                &&& TerrainManager::picks(old(self), final(self), r)
                &&& final(self).config == old(self).config
                &&& final(self).spiral_state.center == old(self).spiral_state.center
                &&& final(self).noise_handle == old(self).noise_handle
                &&& r is None ==> final(self).spawned_chunks == old(self).spawned_chunks
                    && final(self).active_permits == old(self).active_permits
                &&& r matches Some(p) ==> final(self).spawned_view() == old(
                    self,
                ).spawned_view().insert((p.x as int, p.z as int)) && final(self).active_permits
                    == old(self).active_permits + 1
            },
    {
        if self.active_permits >= self.config.threads {
            return None;
        }
        let ghost pre = *self;
        let picked = self.try_get_next_chunk();
        match picked {
            Some(c) => {
                let ghost mid = *self;
                self.active_permits = self.active_permits + 1;
                chunk_set_insert(&mut self.spawned_chunks, (c.x, c.z));
                proof {
                    let o = (c.x - pre.spiral_state.center.x, c.z - pre.spiral_state.center.z);
                    if pre.requested_behind() {
                        assert forall|x: int, y: int| #[trigger] spiral_index(x, y) < self.step()
                            implies self.spawned_view().contains(self.target((x, y))) by {
                            if spiral_index(x, y) < pre.step() {
                                assert(pre.spawned_view().contains(pre.target((x, y))));
                            } else if spiral_index(x, y) < spiral_index(o.0, o.1) {
                                assert(pre.spawned_view().contains(pre.target((x, y))));
                            } else {
                                lemma_index_injective(x, y, o.0, o.1);
                            }
                        }
                    }
                }
                Some(c)
            },
            None => {
                proof {
                    if pre.requested_behind() {
                        assert forall|x: int, y: int| #[trigger] spiral_index(x, y) < self.step()
                            implies self.spawned_view().contains(self.target((x, y))) by {
                            if spiral_index(x, y) < pre.step() {
                                assert(pre.spawned_view().contains(pre.target((x, y))));
                            }
                        }
                        assert forall|x: int, y: int| ring(x, y) <= self.config.radius implies #[trigger] self.spawned_view().contains(
                            self.target((x, y)),
                        ) by {
                            lemma_index_bound(x, y, self.config.radius as int);
                            assert(spiral_index(x, y) < self.step());
                        }
                    }
                }
                None
            },
        }
    }

    /// Completion step for a finished job: gives its permit back, and returns whether
    /// its mesh has geometry to attach (`false`: the chunk is discarded).
    pub fn finish_job(&mut self, mesh: &MeshData) -> (r: bool)
        requires
            old(self).wf(),
        ensures
            final(self).wf(),
            final(self).active_permits <= final(self).config.threads,
            old(self).requested_behind() ==> final(self).requested_behind(),
            old(self).all_requested() ==> final(self).all_requested(),
            r == (mesh.positions@.len() > 0),
            final(self).active_permits == if old(self).active_permits > 0 {
                old(self).active_permits - 1
            } else {
                0
            },
            final(self).config == old(self).config,
            final(self).spiral_state == old(self).spiral_state,
            final(self).spawned_chunks == old(self).spawned_chunks,
            final(self).noise_handle == old(self).noise_handle,
    {
        let ghost pre = *self;
        if self.active_permits > 0 {
            self.active_permits = self.active_permits - 1;
        }
        proof {
            if pre.all_requested() {
                assert forall|x: int, y: int| ring(x, y) <= self.config.radius implies #[trigger] self.spawned_view().contains(
                    self.target((x, y)),
                ) by {
                    assert(pre.spawned_view().contains(pre.target((x, y))));
                }
            }
        }
        mesh.positions.len() > 0
    }

    /// Generation: builds the chunk whose column `(x, z)` is solid from the bottom up
    /// to `heights[x + z * CHUNK_WIDTH]` (clamped to the chunk's height) and air above.
    pub fn run(&self, heights: &Vec<i32>) -> (r: ChunkData)
        requires
            heights@.len() == LAYER_SIZE,
        ensures
            r.wf(),
            r.voxels@ == column_fill(heights@),
            forall|x: int, y: int, z: int|
                in_bounds_spec(x, y, z) ==> #[trigger] r.cell(x, y, z) == if y < fill_height(
                    heights@[x + z * 16],
                ) {
                    Voxel::Solid
                } else {
                    Voxel::Air
                },
    {
        let mut voxels: Vec<Voxel> = vec![Voxel::Air; CHUNK_VOLUME];
        let mut col: usize = 0;
        while col < LAYER_SIZE
            invariant
                heights@.len() == LAYER_SIZE,
                voxels@.len() == CHUNK_VOLUME,
                0 <= col <= LAYER_SIZE,
                forall|c: int, y: int|
                    0 <= c < 256 && 0 <= y < 128 ==> #[trigger] voxels@[c + y * 256] == if c < col
                        && y < fill_height(heights@[c]) {
                        Voxel::Solid
                    } else {
                        Voxel::Air
                    },
            decreases LAYER_SIZE - col,
        {
            let height = heights[col];
            let fill_to: usize = if height < 0 {
                0
            } else if height > 128 {
                128
            } else {
                height as usize
            };
            let mut current_idx: usize = col;
            let mut t: usize = 0;
            while t < fill_to
                invariant
                    heights@.len() == LAYER_SIZE,
                    voxels@.len() == CHUNK_VOLUME,
                    0 <= col < LAYER_SIZE,
                    fill_to == fill_height(heights@[col as int]),
                    0 <= t <= fill_to,
                    current_idx == col + t * 256,
                    forall|c: int, y: int|
                        0 <= c < 256 && 0 <= y < 128 ==> #[trigger] voxels@[c + y * 256] == if (c
                            < col && y < fill_height(heights@[c])) || (c == col && y < t) {
                            Voxel::Solid
                        } else {
                            Voxel::Air
                        },
                decreases fill_to - t,
            {
                let ghost pre = voxels@;
                voxels.set(current_idx, Voxel::Solid);
                proof {
                    assert forall|c: int, y: int| 0 <= c < 256 && 0 <= y < 128 implies #[trigger] voxels@[c
                        + y * 256] == if (c < col && y < fill_height(heights@[c])) || (c == col && y
                        < t + 1) {
                        Voxel::Solid
                    } else {
                        Voxel::Air
                    } by {
                        if c + y * 256 == col + t * 256 {
                            assert(c == col && y == t) by (nonlinear_arith)
                                requires
                                    c + y * 256 == col + t * 256,
                                    0 <= c < 256,
                                    0 <= col < 256,
                            ;
                        } else {
                            assert(voxels@[c + y * 256] == pre[c + y * 256]);
                            assert(!(c == col && y == t));
                        }
                    }
                }
                t = t + 1;
                if t < fill_to {
                    current_idx = current_idx + 256;
                }
                else {
                    current_idx = col + t * 256;
                }
            }
            col = col + 1;
        }
        let r = ChunkData { voxels };
        proof {
            assert forall|x: int, y: int, z: int| in_bounds_spec(x, y, z) implies #[trigger] r.cell(
                x,
                y,
                z,
            ) == if y < fill_height(heights@[x + z * 16]) {
                Voxel::Solid
            } else {
                Voxel::Air
            } by {
                assert(0 <= x + z * 16 < 256) by (nonlinear_arith)
                    requires
                        0 <= x < 16,
                        0 <= z < 16,
                ;
                assert(r.voxels@[(x + z * 16) + y * 256] == r.voxels@[x + z * 16 + y * 256]);
            }
            assert forall|i: int| 0 <= i < CHUNK_VOLUME implies r.voxels@[i] == column_fill(
                heights@,
            )[i] by {
                let c = i % 256;
                let y = i / 256;
                assert(i == c + y * 256 && 0 <= c < 256 && 0 <= y < 128);
            }
            assert(r.voxels@ =~= column_fill(heights@));
        }
        r
    }
}

} // verus!
