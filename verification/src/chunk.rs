//! Chunked world — spatial partitioning with load/unload radius.
//!
//! Chunks are addressed by integer coordinates; the caller maps world
//! positions to chunk coordinates (see `ChunkConfig`).
//!
//! The chunks and the active set are kept in `Vec`s, each coordinate at
//! most once (`distinct_coords`), in the order the coordinates were first
//! seen. A hash map keyed by the coordinate struct would hand out the active
//! chunks and the activated/deactivated lists in hash order, which no
//! contract could state; the vectors make those lists exact.

use vstd::prelude::*;

verus! {

/// Integer coordinate of a chunk in chunk-space (x, z).
#[derive(Debug, Clone, Copy, PartialEq, Eq, Hash, Structural)]
pub struct ChunkCoord {
    pub x: i32,
    pub y: i32,
}

/// Load and unload radii of the chunk system, in chunks. (The world-space
/// chunk size, a float, is kept by the caller that maps positions to chunks.)
#[derive(Debug, Clone, Copy, PartialEq, Eq, Structural)]
pub struct ChunkConfig {
    /// Load radius in chunks around the camera.
    pub load_radius: u32,
    /// Unload radius in chunks (must be > load_radius to avoid thrashing).
    pub unload_radius: u32,
}

impl ChunkConfig {
    /// Radius 4 to load, 6 to unload.
    pub fn default() -> (c: Self)
        ensures
            c.load_radius == 4,
            c.unload_radius == 6,
    {
        ChunkConfig { load_radius: 4, unload_radius: 6 }
    }
}

/// State of a single chunk.
#[derive(Debug)]
pub struct Chunk {
    pub coord: ChunkCoord,
    /// Ids of the entities in the chunk.
    pub entities: Vec<u64>,
    pub dirty: bool,
}

/// Result of a chunk manager update: which chunks entered/left the active set.
#[derive(Debug)]
pub struct ChunkTransitions {
    /// Chunks that just entered the active set (need loading).
    pub activated: Vec<ChunkCoord>,
    /// Chunks that just left the active set (need unloading).
    pub deactivated: Vec<ChunkCoord>,
}

/// Whether `c` lies in the square of radius `r` around `center`.
pub open spec fn within(c: ChunkCoord, center: ChunkCoord, r: int) -> bool {
    &&& -r <= c.x - center.x <= r
    &&& -r <= c.y - center.y <= r
}

/// No element occurs twice.
pub open spec fn no_dups<A>(s: Seq<A>) -> bool {
    forall|i: int, j: int| 0 <= i < j < s.len() ==> s[i] != s[j]
}

/// The chunk at `c` in `chunks` (distinct coordinates), as its entities and
/// dirty flag.
pub open spec fn chunk_at(chunks: Seq<(ChunkCoord, Seq<u64>, bool)>, c: ChunkCoord) -> Option<(Seq<u64>, bool)> {
    if exists|k: int| 0 <= k < chunks.len() && (#[trigger] chunks[k]).0 == c {
        let k = choose|k: int| 0 <= k < chunks.len() && (#[trigger] chunks[k]).0 == c;
        Some((chunks[k].1, chunks[k].2))
    } else {
        None
    }
}

/// Chunk coordinates are distinct.
pub open spec fn distinct_coords(chunks: Seq<(ChunkCoord, Seq<u64>, bool)>) -> bool {
    forall|i: int, j: int| 0 <= i < j < chunks.len() ==> (#[trigger] chunks[i]).0 != (#[trigger] chunks[j]).0
}

/// Manages spatial partitioning of the world into chunks.
pub struct ChunkManager {
    config: ChunkConfig,
    chunks: Vec<Chunk>,
    active_chunks: Vec<ChunkCoord>,
    camera_chunk: ChunkCoord,
}

impl ChunkManager {
    /// The tracked chunks.
    pub closed spec fn chunks(&self) -> Seq<(ChunkCoord, Seq<u64>, bool)> {
        self.chunks@.map_values(|c: Chunk| (c.coord, c.entities@, c.dirty))
    }

    /// The active chunk coordinates.
    pub closed spec fn active(&self) -> Seq<ChunkCoord> {
        self.active_chunks@
    }

    /// The chunk the camera was last seen in.
    pub closed spec fn camera(&self) -> ChunkCoord {
        self.camera_chunk
    }

    /// The radii.
    pub closed spec fn cfg(&self) -> ChunkConfig {
        self.config
    }

    /// Radii ordered and within `i32`; chunks and active coordinates distinct.
    pub open spec fn wf(&self) -> bool {
        &&& self.cfg().load_radius < self.cfg().unload_radius <= i32::MAX
        &&& distinct_coords(self.chunks())
        &&& no_dups(self.active())
    }

    /// A manager with no chunks; the first `update` always recomputes.
    pub fn new(config: ChunkConfig) -> (m: Self)
        requires
            config.unload_radius > config.load_radius,
            config.unload_radius <= i32::MAX,
        ensures
            m.wf(),
            m.cfg() == config,
            m.chunks().len() == 0,
            m.active().len() == 0,
            m.camera() == (ChunkCoord { x: i32::MAX, y: i32::MAX }),
    {
        let m = ChunkManager {
            config,
            chunks: Vec::new(),
            active_chunks: Vec::new(),
            camera_chunk: ChunkCoord { x: i32::MAX, y: i32::MAX },
        };
        assert(m.chunks() =~= Seq::<(ChunkCoord, Seq<u64>, bool)>::empty());
        m
    }

    /// Whether `coord` is active.
    pub fn is_active(&self, coord: ChunkCoord) -> (r: bool)
        ensures
            r == self.active().contains(coord),
    {
        let mut i: usize = 0;
        while i < self.active_chunks.len()
            invariant
                i <= self.active().len(),
                self.active() == self.active_chunks@,
                forall|j: int| 0 <= j < i ==> self.active()[j] != coord,
            decreases self.active().len() - i,
        {
            if self.active_chunks[i] == coord {
                return true;
            }
            i = i + 1;
        }
        false
    }

    /// Position of the chunk at `coord`.
    fn chunk_index(&self, coord: ChunkCoord) -> (r: Option<usize>)
        requires
            self.wf(),
        ensures
            r is None ==> chunk_at(self.chunks(), coord) is None,
            r matches Some(i) ==> i < self.chunks().len() && self.chunks()[i as int].0 == coord
                && chunk_at(self.chunks(), coord) == Some((self.chunks()[i as int].1, self.chunks()[i as int].2)),
    {
        let mut i: usize = 0;
        while i < self.chunks.len()
            invariant
                self.wf(),
                self.chunks().len() == self.chunks@.len(),
                i <= self.chunks@.len(),
                forall|j: int| 0 <= j < i ==> (#[trigger] self.chunks()[j]).0 != coord,
            decreases self.chunks@.len() - i,
        {
            if self.chunks[i].coord == coord {
                proof {
                    let cs = self.chunks();
                    assert(cs[i as int].0 == coord);
                    let k = choose|k: int| 0 <= k < cs.len() && (#[trigger] cs[k]).0 == coord;
                    if k < i {
                        assert(cs[k].0 != coord);
                    } else if k > i {
                        assert(cs[i as int].0 != cs[k].0);
                    }
                }
                return Some(i);
            }
            i = i + 1;
        }
        None
    }

    /// The chunk at `coord`, if tracked.
    pub fn chunk(&self, coord: ChunkCoord) -> (r: Option<&Chunk>)
        requires
            self.wf(),
        ensures
            match r {
                Some(c) => c.coord == coord && chunk_at(self.chunks(), coord) == Some((c.entities@, c.dirty)),
                None => chunk_at(self.chunks(), coord) is None,
            },
    {
        match self.chunk_index(coord) {
            Some(i) => Some(&self.chunks[i]),
            None => None,
        }
    }

    /// The chunk coordinate the camera is currently in.
    pub fn camera_chunk(&self) -> (r: ChunkCoord)
        ensures
            r == self.camera(),
    {
        self.camera_chunk
    }

    /// The chunk configuration.
    pub fn config(&self) -> (r: ChunkConfig)
        ensures
            r == self.cfg(),
    {
        self.config
    }

    /// The active chunk coordinates.
    pub fn active_chunks(&self) -> (r: &Vec<ChunkCoord>)
        ensures
            r@ == self.active(),
    {
        &self.active_chunks
    }

    /// Ensure a chunk exists at `coord` (created empty and clean if missing).
    fn ensure_chunk(&mut self, coord: ChunkCoord) -> (i: usize)
        requires
            old(self).wf(),
        ensures
            final(self).wf(),
            i < final(self).chunks().len(),
            final(self).chunks()[i as int].0 == coord,
            chunk_at(old(self).chunks(), coord) is Some ==> final(self).chunks() == old(self).chunks(),
            chunk_at(old(self).chunks(), coord) is None ==> final(self).chunks() == old(self).chunks().push((coord, Seq::<u64>::empty(), false)),
            final(self).active() == old(self).active(),
            final(self).camera() == old(self).camera(),
            final(self).cfg() == old(self).cfg(),
    {
        match self.chunk_index(coord) {
            Some(i) => i,
            None => {
                let ghost cs0 = self.chunks();
                self.chunks.push(Chunk { coord, entities: Vec::new(), dirty: false });
                proof {
                    let cs = self.chunks();
                    assert(cs =~= cs0.push((coord, Seq::<u64>::empty(), false)));
                    assert forall|a: int, b: int| 0 <= a < b < cs.len() implies (#[trigger] cs[a]).0 != (#[trigger] cs[b]).0 by {
                        assert(cs[a] == cs0[a]);
                        if b < cs0.len() {
                            assert(cs[b] == cs0[b]);
                        } else {
                            assert(cs0[a].0 != coord);
                        }
                    }
                }
                self.chunks.len() - 1
            },
        }
    }

    /// Update active chunks for the camera's chunk `new_chunk`.
    ///
    /// If the camera stayed in its chunk nothing changes. Otherwise every
    /// chunk within the load radius becomes active (and tracked), and every
    /// active chunk beyond the unload radius becomes inactive. Returns which
    /// chunks were activated and deactivated.
    pub fn update(&mut self, new_chunk: ChunkCoord) -> (t: ChunkTransitions)
        requires
            old(self).wf(),
            new_chunk != old(self).camera() ==> {
                &&& i32::MIN + old(self).cfg().load_radius <= new_chunk.x <= i32::MAX - old(self).cfg().load_radius
                &&& i32::MIN + old(self).cfg().load_radius <= new_chunk.y <= i32::MAX - old(self).cfg().load_radius
            },
        ensures
            final(self).wf(),
            final(self).cfg() == old(self).cfg(),
            final(self).camera() == new_chunk,
            new_chunk == old(self).camera() ==> {
                &&& t.activated@.len() == 0
                &&& t.deactivated@.len() == 0
                &&& final(self).chunks() == old(self).chunks()
                &&& final(self).active() == old(self).active()
            },
            new_chunk != old(self).camera() ==> {
                let r = old(self).cfg().load_radius as int;
                let u = old(self).cfg().unload_radius as int;
                &&& no_dups(t.activated@)
                &&& forall|c: ChunkCoord| #[trigger] t.activated@.contains(c) <==> within(c, new_chunk, r) && !old(self).active().contains(c)
                &&& no_dups(t.deactivated@)
                &&& forall|c: ChunkCoord| #[trigger] t.deactivated@.contains(c) <==> old(self).active().contains(c) && !within(c, new_chunk, u)
                &&& forall|c: ChunkCoord| #[trigger] final(self).active().contains(c) <==>
                    (old(self).active().contains(c) && within(c, new_chunk, u)) || within(c, new_chunk, r)
                &&& forall|c: ChunkCoord| #[trigger] chunk_at(final(self).chunks(), c) == (
                    if t.activated@.contains(c) && chunk_at(old(self).chunks(), c) is None {
                        Some((Seq::<u64>::empty(), false))
                    } else {
                        chunk_at(old(self).chunks(), c)
                    })
            },
    {
        if new_chunk == self.camera_chunk {
            return ChunkTransitions { activated: Vec::new(), deactivated: Vec::new() };
        }
        self.camera_chunk = new_chunk;
        let r = self.config.load_radius as i64;
        let u = self.config.unload_radius as i64;
        let ghost act0 = self.active();
        let ghost cs0 = self.chunks();

        // Chunks to activate: within the load radius but not active.
        let mut activated: Vec<ChunkCoord> = Vec::new();
        let mut dx: i64 = -r;
        while dx <= r
            invariant
                self.wf(),
                self.active() == act0,
                self.chunks() == cs0,
                self.camera() == new_chunk,
                self.cfg() == old(self).cfg(),
                r == self.cfg().load_radius,
                -r <= dx <= r + 1,
                i32::MIN + r <= new_chunk.x <= i32::MAX - r,
                i32::MIN + r <= new_chunk.y <= i32::MAX - r,
                no_dups(activated@),
                forall|c: ChunkCoord| #[trigger] activated@.contains(c) <==>
                    (within(c, new_chunk, r as int) && c.x - new_chunk.x < dx && !act0.contains(c)),
            decreases r + 1 - dx,
        {
            let mut dz: i64 = -r;
            while dz <= r
                invariant
                    self.wf(),
                    self.active() == act0,
                    -r <= dx <= r,
                    -r <= dz <= r + 1,
                    i32::MIN + r <= new_chunk.x <= i32::MAX - r,
                    i32::MIN + r <= new_chunk.y <= i32::MAX - r,
                    no_dups(activated@),
                    forall|c: ChunkCoord| #[trigger] activated@.contains(c) <==>
                        (within(c, new_chunk, r as int) && (c.x - new_chunk.x < dx || (c.x - new_chunk.x == dx && c.y - new_chunk.y < dz))
                            && !act0.contains(c)),
                decreases r + 1 - dz,
            {
                let c = ChunkCoord { x: (new_chunk.x as i64 + dx) as i32, y: (new_chunk.y as i64 + dz) as i32 };
                if !self.is_active(c) {
                    let ghost before = activated@;
                    proof {
                        assert(!before.contains(c));
                    }
                    activated.push(c);
                    proof {
                        assert forall|a: int, b: int| 0 <= a < b < activated@.len() implies activated@[a] != activated@[b] by {
                            if b == before.len() {
                                assert(before.contains(activated@[a]));
                            } else {
                                assert(before[a] != before[b]);
                            }
                        }
                        assert forall|x: ChunkCoord| #[trigger] activated@.contains(x) <==> before.contains(x) || x == c by {
                            if activated@.contains(x) {
                                let k = choose|k: int| 0 <= k < activated@.len() && activated@[k] == x;
                                if k < before.len() { assert(before[k] == x); }
                            }
                            if before.contains(x) {
                                let k = choose|k: int| 0 <= k < before.len() && before[k] == x;
                                assert(activated@[k] == x);
                            }
                            if x == c {
                                assert(activated@[before.len() as int] == c);
                            }
                        }
                    }
                }
                dz = dz + 1;
            }
            dx = dx + 1;
        }

        // Chunks to deactivate: active but beyond the unload radius.
        let mut deactivated: Vec<ChunkCoord> = Vec::new();
        let mut kept: Vec<ChunkCoord> = Vec::new();
        let mut i: usize = 0;
        while i < self.active_chunks.len()
            invariant
                self.active() == act0,
                self.active_chunks@ == act0,
                no_dups(act0),
                u == self.cfg().unload_radius,
                self.cfg() == old(self).cfg(),
                i <= act0.len(),
                forall|k: int| 0 <= k < deactivated@.len() ==> exists|j: int| 0 <= j < i && act0[j] == #[trigger] deactivated@[k],
                forall|k: int| 0 <= k < kept@.len() ==> exists|j: int| 0 <= j < i && act0[j] == #[trigger] kept@[k],
                no_dups(deactivated@),
                no_dups(kept@),
                forall|c: ChunkCoord| #[trigger] deactivated@.contains(c) <==>
                    (exists|j: int| 0 <= j < i && act0[j] == c) && !within(c, new_chunk, u as int),
                forall|c: ChunkCoord| #[trigger] kept@.contains(c) <==>
                    (exists|j: int| 0 <= j < i && act0[j] == c) && within(c, new_chunk, u as int),
            decreases act0.len() - i,
        {
            let c = self.active_chunks[i];
            let ox = c.x as i64 - new_chunk.x as i64;
            let oy = c.y as i64 - new_chunk.y as i64;
            let outside = ox > u || ox < -u || oy > u || oy < -u;
            proof {
                assert forall|k: int| 0 <= k < deactivated@.len() implies deactivated@[k] != c by {
                    let j = choose|j: int| 0 <= j < i && act0[j] == deactivated@[k];
                    assert(act0[j] != act0[i as int]);
                }
                assert forall|k: int| 0 <= k < kept@.len() implies kept@[k] != c by {
                    let j = choose|j: int| 0 <= j < i && act0[j] == kept@[k];
                    assert(act0[j] != act0[i as int]);
                }
            }
            if outside {
                let ghost before = deactivated@;
                deactivated.push(c);
                proof {
                    assert forall|x: ChunkCoord| #[trigger] deactivated@.contains(x) <==> before.contains(x) || x == c by {
                        if deactivated@.contains(x) {
                            let k = choose|k: int| 0 <= k < deactivated@.len() && deactivated@[k] == x;
                            if k < before.len() { assert(before[k] == x); }
                        }
                        if before.contains(x) {
                            let k = choose|k: int| 0 <= k < before.len() && before[k] == x;
                            assert(deactivated@[k] == x);
                        }
                        if x == c { assert(deactivated@[before.len() as int] == c); }
                    }
                    assert forall|k: int| 0 <= k < deactivated@.len() implies exists|j: int| 0 <= j < i + 1 && act0[j] == #[trigger] deactivated@[k] by {
                        if k < before.len() {
                            let j = choose|j: int| 0 <= j < i && act0[j] == before[k];
                            assert(act0[j] == deactivated@[k]);
                        } else {
                            assert(act0[i as int] == deactivated@[k]);
                        }
                    }
                    assert forall|a: int, b: int| 0 <= a < b < deactivated@.len() implies deactivated@[a] != deactivated@[b] by {
                        if b < before.len() { assert(before[a] != before[b]); }
                    }
                    assert forall|x: ChunkCoord| #[trigger] kept@.contains(x) <==>
                        (exists|j: int| 0 <= j < i + 1 && act0[j] == x) && within(x, new_chunk, u as int) by {
                        if x == c {
                            assert(!within(x, new_chunk, u as int));
                        } else if exists|j: int| 0 <= j < i + 1 && act0[j] == x {
                            let j = choose|j: int| 0 <= j < i + 1 && act0[j] == x;
                            assert(j < i);
                        }
                    }
                }
            } else {
                let ghost before = kept@;
                kept.push(c);
                proof {
                    assert forall|x: ChunkCoord| #[trigger] kept@.contains(x) <==> before.contains(x) || x == c by {
                        if kept@.contains(x) {
                            let k = choose|k: int| 0 <= k < kept@.len() && kept@[k] == x;
                            if k < before.len() { assert(before[k] == x); }
                        }
                        if before.contains(x) {
                            let k = choose|k: int| 0 <= k < before.len() && before[k] == x;
                            assert(kept@[k] == x);
                        }
                        if x == c { assert(kept@[before.len() as int] == c); }
                    }
                    assert forall|k: int| 0 <= k < kept@.len() implies exists|j: int| 0 <= j < i + 1 && act0[j] == #[trigger] kept@[k] by {
                        if k < before.len() {
                            let j = choose|j: int| 0 <= j < i && act0[j] == before[k];
                            assert(act0[j] == kept@[k]);
                        } else {
                            assert(act0[i as int] == kept@[k]);
                        }
                    }
                    assert forall|a: int, b: int| 0 <= a < b < kept@.len() implies kept@[a] != kept@[b] by {
                        if b < before.len() { assert(before[a] != before[b]); }
                    }
                    assert forall|x: ChunkCoord| #[trigger] deactivated@.contains(x) <==>
                        (exists|j: int| 0 <= j < i + 1 && act0[j] == x) && !within(x, new_chunk, u as int) by {
                        if x == c {
                            assert(within(x, new_chunk, u as int));
                        } else if exists|j: int| 0 <= j < i + 1 && act0[j] == x {
                            let j = choose|j: int| 0 <= j < i + 1 && act0[j] == x;
                            assert(j < i);
                        }
                    }
                }
            }
            i = i + 1;
        }
        proof {
            assert forall|c: ChunkCoord| (exists|j: int| 0 <= j < act0.len() && act0[j] == c) <==> #[trigger] act0.contains(c) by {}
        }

        // New active set: kept chunks, then the activated ones, each tracked.
        let mut k: usize = 0;
        while k < activated.len()
            invariant
                self.wf(),
                self.camera() == new_chunk,
                self.cfg() == old(self).cfg(),
                k <= activated@.len(),
                no_dups(activated@),
                forall|c: ChunkCoord| #[trigger] activated@.contains(c) ==> !act0.contains(c),
                forall|c: ChunkCoord| #[trigger] chunk_at(self.chunks(), c) == (
                    if (exists|j: int| 0 <= j < k && activated@[j] == c) && chunk_at(cs0, c) is None {
                        Some((Seq::<u64>::empty(), false))
                    } else {
                        chunk_at(cs0, c)
                    }),
            decreases activated@.len() - k,
        {
            let c = activated[k];
            let ghost csb = self.chunks();
            self.ensure_chunk(c);
            proof {
                let cs = self.chunks();
                if chunk_at(csb, c) is None {
                    lemma_chunk_after_push(csb, c);
                }
                assert forall|x: ChunkCoord| #[trigger] chunk_at(self.chunks(), x) == (
                    if (exists|j: int| 0 <= j < k + 1 && activated@[j] == x) && chunk_at(cs0, x) is None {
                        Some((Seq::<u64>::empty(), false))
                    } else {
                        chunk_at(cs0, x)
                    }) by {
                    if x != c {
                        if exists|j: int| 0 <= j < k + 1 && activated@[j] == x {
                            let j = choose|j: int| 0 <= j < k + 1 && activated@[j] == x;
                            assert(j < k);
                        }
                    } else {
                        assert(activated@[k as int] == x);
                    }
                }
            }
            k = k + 1;
        }
        let mut new_active = kept;
        let ghost kept_v = new_active@;
        let mut m: usize = 0;
        while m < activated.len()
            invariant
                m <= activated@.len(),
                no_dups(activated@),
                no_dups(kept_v),
                forall|c: ChunkCoord| #[trigger] kept_v.contains(c) ==> act0.contains(c),
                forall|c: ChunkCoord| #[trigger] activated@.contains(c) ==> !act0.contains(c),
                new_active@ == kept_v + activated@.take(m as int),
            decreases activated@.len() - m,
        {
            new_active.push(activated[m]);
            proof {
                assert(activated@.take(m + 1) =~= activated@.take(m as int).push(activated@[m as int]));
            }
            m = m + 1;
        }
        proof {
            assert(activated@.take(activated@.len() as int) =~= activated@);
            let na = new_active@;
            assert forall|a: int, b: int| 0 <= a < b < na.len() implies na[a] != na[b] by {
                if b < kept_v.len() {
                    assert(kept_v[a] != kept_v[b]);
                } else if a >= kept_v.len() {
                    assert(activated@[a - kept_v.len()] != activated@[b - kept_v.len()]);
                } else {
                    assert(kept_v.contains(na[a]));
                    assert(activated@.contains(na[b]));
                }
            }
            assert forall|c: ChunkCoord| #[trigger] na.contains(c) <==> kept_v.contains(c) || activated@.contains(c) by {
                if na.contains(c) {
                    let j = choose|j: int| 0 <= j < na.len() && na[j] == c;
                    if j < kept_v.len() {
                        assert(kept_v[j] == c);
                    } else {
                        assert(activated@[j - kept_v.len()] == c);
                    }
                }
                if kept_v.contains(c) {
                    let j = choose|j: int| 0 <= j < kept_v.len() && kept_v[j] == c;
                    assert(na[j] == c);
                }
                if activated@.contains(c) {
                    let j = choose|j: int| 0 <= j < activated@.len() && activated@[j] == c;
                    assert(na[kept_v.len() + j] == c);
                }
            }
            assert forall|c: ChunkCoord| (exists|j: int| 0 <= j < activated@.len() && activated@[j] == c) <==> #[trigger] activated@.contains(c) by {}
        }
        self.active_chunks = new_active;
        ChunkTransitions { activated, deactivated }
    }
    /// Register an entity in a chunk (tracking the chunk if needed) and mark
    /// the chunk dirty.
    pub fn register_entity(&mut self, entity: u64, coord: ChunkCoord)
        requires
            old(self).wf(),
        ensures
            final(self).wf(),
            chunk_at(final(self).chunks(), coord) == Some((
                match chunk_at(old(self).chunks(), coord) {
                    Some(ch) => ch.0,
                    None => Seq::<u64>::empty(),
                }.push(entity),
                true,
            )),
            forall|x: ChunkCoord| x != coord ==> #[trigger] chunk_at(final(self).chunks(), x) == chunk_at(old(self).chunks(), x),
            final(self).active() == old(self).active(),
            final(self).camera() == old(self).camera(),
            final(self).cfg() == old(self).cfg(),
    {
        let ghost cs0 = self.chunks();
        let i = self.ensure_chunk(coord);
        let ghost cs1 = self.chunks();
        proof {
            if chunk_at(cs0, coord) is None {
                lemma_chunk_after_push(cs0, coord);
            }
            lemma_chunk_at_index(cs1, i as int);
        }
        let mut ch = self.chunks.remove(i);
        ch.entities.push(entity);
        ch.dirty = true;
        self.chunks.insert(i, ch);
        proof {
            assert(self.chunks() =~= cs1.update(i as int, (coord, cs1[i as int].1.push(entity), true)));
            lemma_chunk_after_update(cs1, i as int, cs1[i as int].1.push(entity), true);
        }
    }

    /// Remove an entity from a tracked chunk and mark the chunk dirty; an
    /// untracked chunk is left alone.
    pub fn unregister_entity(&mut self, entity: u64, coord: ChunkCoord)
        requires
            old(self).wf(),
        ensures
            final(self).wf(),
            chunk_at(final(self).chunks(), coord) == match chunk_at(old(self).chunks(), coord) {
                Some(ch) => Some((without(ch.0, entity), true)),
                None => None,
            },
            forall|x: ChunkCoord| x != coord ==> #[trigger] chunk_at(final(self).chunks(), x) == chunk_at(old(self).chunks(), x),
            final(self).active() == old(self).active(),
            final(self).camera() == old(self).camera(),
            final(self).cfg() == old(self).cfg(),
    {
        match self.chunk_index(coord) {
            None => {},
            Some(i) => {
                let ghost cs1 = self.chunks();
                proof { lemma_chunk_at_index(cs1, i as int); }
                let mut ch = self.chunks.remove(i);
                let mut kept: Vec<u64> = Vec::new();
                let mut k: usize = 0;
                while k < ch.entities.len()
                    invariant
                        k <= ch.entities@.len(),
                        kept@ == without(ch.entities@.take(k as int), entity),
                    decreases ch.entities@.len() - k,
                {
                    let e = ch.entities[k];
                    proof {
                        assert(ch.entities@.take(k + 1).drop_last() =~= ch.entities@.take(k as int));
                    }
                    if e != entity {
                        kept.push(e);
                    }
                    k = k + 1;
                }
                assert(ch.entities@.take(ch.entities@.len() as int) =~= ch.entities@);
                ch.entities = kept;
                ch.dirty = true;
                self.chunks.insert(i, ch);
                proof {
                    assert(self.chunks() =~= cs1.update(i as int, (coord, without(cs1[i as int].1, entity), true)));
                    lemma_chunk_after_update(cs1, i as int, without(cs1[i as int].1, entity), true);
                }
            },
        }
    }

    /// Remove all tracked data for a chunk (e.g. after unloading its entities).
    pub fn remove_chunk(&mut self, coord: ChunkCoord)
        requires
            old(self).wf(),
        ensures
            final(self).wf(),
            chunk_at(final(self).chunks(), coord) is None,
            forall|x: ChunkCoord| x != coord ==> #[trigger] chunk_at(final(self).chunks(), x) == chunk_at(old(self).chunks(), x),
            forall|x: ChunkCoord| #[trigger] final(self).active().contains(x) <==> old(self).active().contains(x) && x != coord,
            final(self).camera() == old(self).camera(),
            final(self).cfg() == old(self).cfg(),
    {
        match self.chunk_index(coord) {
            None => {},
            Some(i) => {
                let ghost cs1 = self.chunks();
                self.chunks.remove(i);
                proof {
                    let cs = self.chunks();
                    assert(cs =~= cs1.remove(i as int));
                    lemma_chunk_after_remove(cs1, i as int);
                }
            },
        }
        let ghost act0 = self.active();
        let ghost cs_after = self.chunks();
        let mut j: usize = 0;
        while j < self.active_chunks.len()
            invariant
                self.active() == act0,
                act0 == old(self).active(),
                no_dups(act0),
                self.chunks() == cs_after,
                distinct_coords(cs_after),
                chunk_at(cs_after, coord) is None,
                forall|x: ChunkCoord| x != coord ==> #[trigger] chunk_at(cs_after, x) == chunk_at(old(self).chunks(), x),
                self.cfg() == old(self).cfg(),
                self.camera() == old(self).camera(),
                self.cfg().load_radius < self.cfg().unload_radius <= i32::MAX,
                j <= act0.len(),
                forall|m: int| 0 <= m < j ==> act0[m] != coord,
            decreases act0.len() - j,
        {
            if self.active_chunks[j] == coord {
                self.active_chunks.remove(j);
                proof {
                    let a = self.active();
                    assert(a =~= act0.remove(j as int));
                    assert forall|p: int, q: int| 0 <= p < q < a.len() implies a[p] != a[q] by {
                        let op = if p < j { p } else { p + 1 };
                        let oq = if q < j { q } else { q + 1 };
                        assert(act0[op] != act0[oq]);
                    }
                    assert forall|x: ChunkCoord| #[trigger] a.contains(x) <==> act0.contains(x) && x != coord by {
                        if a.contains(x) {
                            let m = choose|m: int| 0 <= m < a.len() && a[m] == x;
                            let om = if m < j { m } else { m + 1 };
                            assert(act0[om] == x);
                            assert(act0[j as int] == coord);
                            assert(om != j);
                        }
                        if act0.contains(x) && x != coord {
                            let m = choose|m: int| 0 <= m < act0.len() && act0[m] == x;
                            assert(m != j);
                            if m < j { assert(a[m] == x); } else { assert(a[m - 1] == x); }
                        }
                    }
                }
                return;
            }
            j = j + 1;
        }
        proof {
            assert forall|x: ChunkCoord| #[trigger] act0.contains(x) implies x != coord by {
                let m = choose|m: int| 0 <= m < act0.len() && act0[m] == x;
            }
        }
    }

    /// The entities of all active chunks: active chunks in order, each
    /// chunk's entities in order (untracked active chunks contribute none).
    pub fn active_entities(&self) -> (r: Vec<u64>)
        requires
            self.wf(),
        ensures
            r@ == entities_in(self.chunks(), self.active()),
    {
        let mut out: Vec<u64> = Vec::new();
        let mut i: usize = 0;
        while i < self.active_chunks.len()
            invariant
                self.wf(),
                i <= self.active().len(),
                self.active() == self.active_chunks@,
                out@ == entities_in(self.chunks(), self.active().take(i as int)),
            decreases self.active().len() - i,
        {
            let c = self.active_chunks[i];
            proof {
                assert(self.active().take(i + 1).drop_last() =~= self.active().take(i as int));
            }
            match self.chunk(c) {
                Some(ch) => {
                    let mut k: usize = 0;
                    let ghost base = out@;
                    while k < ch.entities.len()
                        invariant
                            k <= ch.entities@.len(),
                            out@ == base + ch.entities@.take(k as int),
                        decreases ch.entities@.len() - k,
                    {
                        out.push(ch.entities[k]);
                        proof {
                            assert(ch.entities@.take(k + 1) =~= ch.entities@.take(k as int).push(ch.entities@[k as int]));
                        }
                        k = k + 1;
                    }
                    assert(ch.entities@.take(ch.entities@.len() as int) =~= ch.entities@);
                },
                None => {
                    assert(out@ =~= out@ + Seq::<u64>::empty());
                },
            }
            i = i + 1;
        }
        assert(self.active().take(self.active().len() as int) =~= self.active());
        out
    }
}

/// `s` without the occurrences of `e`.
pub open spec fn without(s: Seq<u64>, e: u64) -> Seq<u64>
    decreases s.len(),
{
    if s.len() == 0 {
        s
    } else if s.last() == e {
        without(s.drop_last(), e)
    } else {
        without(s.drop_last(), e).push(s.last())
    }
}

/// The entities of the chunks at `coords`, in order.
pub open spec fn entities_in(chunks: Seq<(ChunkCoord, Seq<u64>, bool)>, coords: Seq<ChunkCoord>) -> Seq<u64>
    decreases coords.len(),
{
    if coords.len() == 0 {
        Seq::empty()
    } else {
        entities_in(chunks, coords.drop_last()) + match chunk_at(chunks, coords.last()) {
            Some(ch) => ch.0,
            None => Seq::<u64>::empty(),
        }
    }
}

/// `chunk_at` of the coordinate at position `i` is that entry.
proof fn lemma_chunk_at_index(cs: Seq<(ChunkCoord, Seq<u64>, bool)>, i: int)
    requires
        distinct_coords(cs),
        0 <= i < cs.len(),
    ensures
        chunk_at(cs, cs[i].0) == Some((cs[i].1, cs[i].2)),
{
    let c = cs[i].0;
    let k = choose|k: int| 0 <= k < cs.len() && (#[trigger] cs[k]).0 == c;
    if k != i {
        assert(cs[k].0 != cs[i].0);
    }
}

/// Replacing the contents of the chunk at position `i` changes only that
/// chunk.
proof fn lemma_chunk_after_update(cs: Seq<(ChunkCoord, Seq<u64>, bool)>, i: int, es: Seq<u64>, dirty: bool)
    requires
        distinct_coords(cs),
        0 <= i < cs.len(),
    ensures
        distinct_coords(cs.update(i, (cs[i].0, es, dirty))),
        chunk_at(cs.update(i, (cs[i].0, es, dirty)), cs[i].0) == Some((es, dirty)),
        forall|x: ChunkCoord| x != cs[i].0 ==> #[trigger] chunk_at(cs.update(i, (cs[i].0, es, dirty)), x) == chunk_at(cs, x),
{
    let c = cs[i].0;
    let after = cs.update(i, (c, es, dirty));
    assert forall|a: int, b: int| 0 <= a < b < after.len() implies (#[trigger] after[a]).0 != (#[trigger] after[b]).0 by {
        assert(after[a].0 == cs[a].0);
        assert(after[b].0 == cs[b].0);
    }
    lemma_chunk_at_index(after, i);
    assert forall|x: ChunkCoord| x != c implies #[trigger] chunk_at(after, x) == chunk_at(cs, x) by {
        if exists|m: int| 0 <= m < after.len() && (#[trigger] after[m]).0 == x {
            let m = choose|m: int| 0 <= m < after.len() && (#[trigger] after[m]).0 == x;
            assert(m != i);
            assert(cs[m] == after[m]);
            lemma_chunk_at_index(cs, m);
        } else {
            assert forall|m: int| 0 <= m < cs.len() implies (#[trigger] cs[m]).0 != x by {
                if m != i { assert(cs[m] == after[m]); }
            }
        }
    }
}

/// Removing the chunk at position `i` untracks its coordinate only.
proof fn lemma_chunk_after_remove(cs: Seq<(ChunkCoord, Seq<u64>, bool)>, i: int)
    requires
        distinct_coords(cs),
        0 <= i < cs.len(),
    ensures
        distinct_coords(cs.remove(i)),
        chunk_at(cs.remove(i), cs[i].0) is None,
        forall|x: ChunkCoord| x != cs[i].0 ==> #[trigger] chunk_at(cs.remove(i), x) == chunk_at(cs, x),
{
    let c = cs[i].0;
    let after = cs.remove(i);
    assert forall|a: int, b: int| 0 <= a < b < after.len() implies (#[trigger] after[a]).0 != (#[trigger] after[b]).0 by {
        let oa = if a < i { a } else { a + 1 };
        let ob = if b < i { b } else { b + 1 };
        assert(after[a] == cs[oa]);
        assert(after[b] == cs[ob]);
        assert(cs[oa].0 != cs[ob].0);
    }
    assert forall|m: int| 0 <= m < after.len() implies (#[trigger] after[m]).0 != c by {
        let om = if m < i { m } else { m + 1 };
        assert(after[m] == cs[om]);
        assert(cs[om].0 != cs[i].0);
    }
    assert forall|x: ChunkCoord| x != c implies #[trigger] chunk_at(after, x) == chunk_at(cs, x) by {
        if exists|m: int| 0 <= m < after.len() && (#[trigger] after[m]).0 == x {
            let m = choose|m: int| 0 <= m < after.len() && (#[trigger] after[m]).0 == x;
            let om = if m < i { m } else { m + 1 };
            assert(after[m] == cs[om]);
            lemma_chunk_at_index(cs, om);
            lemma_chunk_at_index(after, m);
        } else {
            assert forall|m: int| 0 <= m < cs.len() implies (#[trigger] cs[m]).0 != x by {
                if m < i { assert(after[m] == cs[m]); }
                else if m > i { assert(after[m - 1] == cs[m]); }
            }
        }
    }
}

/// Appending a chunk at a new coordinate tracks it empty and clean and keeps
/// every other chunk.
proof fn lemma_chunk_after_push(cs: Seq<(ChunkCoord, Seq<u64>, bool)>, c: ChunkCoord)
    requires
        distinct_coords(cs),
        chunk_at(cs, c) is None,
    ensures
        chunk_at(cs.push((c, Seq::<u64>::empty(), false)), c) == Some((Seq::<u64>::empty(), false)),
        forall|x: ChunkCoord| x != c ==> #[trigger] chunk_at(cs.push((c, Seq::<u64>::empty(), false)), x) == chunk_at(cs, x),
{
    let after = cs.push((c, Seq::<u64>::empty(), false));
    let n = cs.len() as int;
    assert(after[n].0 == c);
    let k = choose|k: int| 0 <= k < after.len() && (#[trigger] after[k]).0 == c;
    if k != n {
        assert(after[k] == cs[k]);
    }
    assert forall|x: ChunkCoord| x != c implies #[trigger] chunk_at(after, x) == chunk_at(cs, x) by {
        if exists|m: int| 0 <= m < after.len() && (#[trigger] after[m]).0 == x {
            let m = choose|m: int| 0 <= m < after.len() && (#[trigger] after[m]).0 == x;
            assert(m != n);
            assert(cs[m] == after[m]);
            let m2 = choose|m2: int| 0 <= m2 < cs.len() && (#[trigger] cs[m2]).0 == x;
            if m2 != m {
                assert(cs[m].0 != cs[m2].0);
            }
        } else {
            assert forall|m: int| 0 <= m < cs.len() implies (#[trigger] cs[m]).0 != x by {
                assert(cs[m] == after[m]);
            }
        }
    }
}

/// After the camera moves, the active set is the window the update leaves:
/// every chunk within the load radius is active, every active chunk lies
/// within the unload radius, and no chunk is both activated and deactivated.
pub proof fn law_active_window(old_active: Seq<ChunkCoord>, center: ChunkCoord, r: int, u: int, c: ChunkCoord)
    requires
        0 <= r < u,
    ensures
        within(c, center, r) ==> ((old_active.contains(c) && within(c, center, u)) || within(c, center, r)),
        ((old_active.contains(c) && within(c, center, u)) || within(c, center, r)) ==> within(c, center, u),
        !((within(c, center, r) && !old_active.contains(c)) && (old_active.contains(c) && !within(c, center, u))),
{
}

} // verus!
