//! Chunked voxel storage: world-to-chunk coordinate mapping, dense per-chunk
//! block arrays with dirty tracking, and the streamer that keeps a cube of
//! chunks resident around a moving center.

use vstd::prelude::*;

verus! {

use crate::CHUNK_SIZE;
use crate::CHUNK_HEIGHT;

/// Largest chunk height the configuration accepts; keeps every coordinate
/// conversion inside `i64` range.
pub const MAX_CONFIG_HEIGHT: usize = 1048576;

/// Session-scoped conversion configuration: the height, in world units, of one
/// chunk row along the z axis. Held explicitly by the caller instead of in
/// process-wide mutable state, so every conversion in a session observes one
/// consistent height.
pub struct ChunkConfig {
    height: usize,
}

impl ChunkConfig {
    /// The configured chunk height, as seen by contracts.
    pub closed spec fn spec_height(&self) -> int {
        self.height as int
    }

    pub open spec fn wf(&self) -> bool {
        1 <= self.spec_height() <= MAX_CONFIG_HEIGHT as int
    }

    pub fn new() -> (r: Self)
        ensures
            r.wf(),
            r.spec_height() == CHUNK_HEIGHT as int,
    {
        ChunkConfig { height: CHUNK_HEIGHT }
    }

    pub fn set_chunk_height(&mut self, h: usize)
        requires
            1 <= h <= MAX_CONFIG_HEIGHT,
        ensures
            final(self).wf(),
            final(self).spec_height() == h as int,
    {
        self.height = h;
    }

    pub fn get_chunk_height(&self) -> (h: usize)
        ensures
            h as int == self.spec_height(),
    {
        self.height
    }
}

impl Default for ChunkConfig {
    fn default() -> (r: Self)
        ensures
            r.wf(),
            r.spec_height() == CHUNK_HEIGHT as int,
    {
        ChunkConfig::new()
    }
}

/// Grid coordinate of one chunk; equality is by value.
#[derive(Debug, Clone, Copy, PartialEq, Eq, Structural, Hash)]
pub struct ChunkPos {
    pub x: i32,
    pub y: i32,
    pub z: i32,
}

/// The chunk-grid cell that world coordinate `w` falls in when cells are `s`
/// wide: the floor of `w / s`.
pub open spec fn grid_cell(w: int, s: int) -> int {
    w / s
}

/// `grid_cell` is the floor of the division: the cell's scaled origin covers
/// the world coordinate, so converting any coordinate after a height change
/// re-buckets it consistently with the new height.
pub proof fn lemma_grid_cell_bounds(w: int, s: int)
    requires
        1 <= s,
    ensures
        grid_cell(w, s) * s <= w < grid_cell(w, s) * s + s,
{
    vstd::arithmetic::div_mod::lemma_fundamental_div_mod(w, s);
    vstd::arithmetic::div_mod::lemma_mod_bound(w, s);
    assert(s * (w / s) == (w / s) * s) by (nonlinear_arith);
}

/// Floor division of a world coordinate by a positive cell size.
fn floor_div(a: i32, d: i32) -> (r: i32)
    requires
        1 <= d,
    ensures
        r as int == grid_cell(a as int, d as int),
{
    proof {
        let x = a as int;
        let dd = d as int;
        assert((x >= 0 ==> 0 <= x / dd <= x) && (x < 0 ==> x <= x / dd <= 0))
            by (nonlinear_arith)
            requires dd >= 1;
    }
    match a.checked_div_euclid(d) {
        Some(q) => q,
        None => 0,
    }
}

impl ChunkPos {
    pub fn new(x: i32, y: i32, z: i32) -> (r: Self)
        ensures
            r == (ChunkPos { x, y, z }),
    {
        ChunkPos { x, y, z }
    }

    /// Maps a world coordinate to the chunk containing it: x and y are bucketed
    /// by `CHUNK_SIZE`, z by the configured chunk height.
    pub fn from_world(wx: i32, wy: i32, wz: i32, cfg: &ChunkConfig) -> (r: Self)
        requires
            cfg.wf(),
        ensures
            r.x as int == grid_cell(wx as int, CHUNK_SIZE as int),
            r.y as int == grid_cell(wy as int, CHUNK_SIZE as int),
            r.z as int == grid_cell(wz as int, cfg.spec_height()),
    {
        let h = cfg.get_chunk_height();
        ChunkPos {
            x: floor_div(wx, CHUNK_SIZE as i32),
            y: floor_div(wy, CHUNK_SIZE as i32),
            z: floor_div(wz, h as i32),
        }
    }

    /// The world coordinate of this chunk's minimum corner.
    pub fn world_origin(&self, cfg: &ChunkConfig) -> (r: (i64, i64, i64))
        requires
            cfg.wf(),
        ensures
            r.0 == self.x as int * CHUNK_SIZE as int,
            r.1 == self.y as int * CHUNK_SIZE as int,
            r.2 == self.z as int * cfg.spec_height(),
    {
        let h = cfg.get_chunk_height();
        proof {
            let z = self.z as int;
            let hh = cfg.spec_height();
            assert(-0x80000000 * 0x100000 <= z * hh <= 0x80000000 * 0x100000)
                by (nonlinear_arith)
                requires -0x80000000 <= z <= 0x7fffffff && 1 <= hh <= 0x100000;
        }
        (
            self.x as i64 * CHUNK_SIZE as i64,
            self.y as i64 * CHUNK_SIZE as i64,
            self.z as i64 * h as i64,
        )
    }
}

/// The 26 grid positions adjacent to `p`, in ascending z, then y, then x order.
pub open spec fn neighbor_seq(p: ChunkPos) -> Seq<ChunkPos> {
    Seq::new(26, |i: int| neighbor_at(p, if i < 13 { i } else { i + 1 }))
}

/// Of the 27 cells in the cube around `p`, the one at index `i` in z, y, x
/// order (index 13 is `p` itself).
pub open spec fn neighbor_at(p: ChunkPos, i: int) -> ChunkPos {
    ChunkPos {
        x: (p.x + (i % 3) - 1) as i32,
        y: (p.y + ((i / 3) % 3) - 1) as i32,
        z: (p.z + (i / 9) - 1) as i32,
    }
}

impl ChunkPos {
    /// All 26 chunk positions bordering this one, faces, edges and corners.
    pub fn neighbors(&self) -> (r: [ChunkPos; 26])
        requires
            i32::MIN < self.x < i32::MAX,
            i32::MIN < self.y < i32::MAX,
            i32::MIN < self.z < i32::MAX,
        ensures
            r@ == neighbor_seq(*self),
    {
        let (x, y, z) = (self.x, self.y, self.z);
        let r: [ChunkPos; 26] = [
            ChunkPos { x: x - 1, y: y - 1, z: z - 1 },
            ChunkPos { x, y: y - 1, z: z - 1 },
            ChunkPos { x: x + 1, y: y - 1, z: z - 1 },
            ChunkPos { x: x - 1, y, z: z - 1 },
            ChunkPos { x, y, z: z - 1 },
            ChunkPos { x: x + 1, y, z: z - 1 },
            ChunkPos { x: x - 1, y: y + 1, z: z - 1 },
            ChunkPos { x, y: y + 1, z: z - 1 },
            ChunkPos { x: x + 1, y: y + 1, z: z - 1 },
            ChunkPos { x: x - 1, y: y - 1, z },
            ChunkPos { x, y: y - 1, z },
            ChunkPos { x: x + 1, y: y - 1, z },
            ChunkPos { x: x - 1, y, z },
            ChunkPos { x: x + 1, y, z },
            ChunkPos { x: x - 1, y: y + 1, z },
            ChunkPos { x, y: y + 1, z },
            ChunkPos { x: x + 1, y: y + 1, z },
            ChunkPos { x: x - 1, y: y - 1, z: z + 1 },
            ChunkPos { x, y: y - 1, z: z + 1 },
            ChunkPos { x: x + 1, y: y - 1, z: z + 1 },
            ChunkPos { x: x - 1, y, z: z + 1 },
            ChunkPos { x, y, z: z + 1 },
            ChunkPos { x: x + 1, y, z: z + 1 },
            ChunkPos { x: x - 1, y: y + 1, z: z + 1 },
            ChunkPos { x, y: y + 1, z: z + 1 },
            ChunkPos { x: x + 1, y: y + 1, z: z + 1 },
        ];
        proof {
            assert forall|i: int| 0 <= i < 26 implies r@[i] == neighbor_seq(*self)[i] by {
                assert(neighbor_seq(*self)[i] == neighbor_at(*self, if i < 13 { i } else { i + 1 }));
            }
            assert(r@ =~= neighbor_seq(*self));
        }
        r
    }
}

/// Identifies one block kind; `0` is empty air.
#[derive(Debug, Clone, Copy, PartialEq, Eq, Structural, Hash)]
pub struct BlockId(pub u16);

impl Default for BlockId {
    fn default() -> (r: Self)
        ensures
            r == BlockId(0u16),
    {
        BlockId(0)
    }
}

/// Number of blocks a chunk stores: `CHUNK_SIZE * CHUNK_SIZE * CHUNK_HEIGHT`.
pub const CHUNK_VOLUME: usize = 65536;

/// Position of local block coordinates inside the dense block array.
pub open spec fn block_index(x: int, y: int, z: int) -> int {
    z * (CHUNK_SIZE * CHUNK_SIZE) as int + y * CHUNK_SIZE as int + x
}

/// Whether local block coordinates lie inside a chunk.
pub open spec fn block_in_bounds(x: int, y: int, z: int) -> bool {
    0 <= x < CHUNK_SIZE as int && 0 <= y < CHUNK_SIZE as int && 0 <= z < CHUNK_HEIGHT as int
}

/// One resident chunk: a dense block array plus dirty and generated flags.
#[derive(Debug, Clone)]
pub struct ChunkData {
    pub pos: ChunkPos,
    pub blocks: Vec<BlockId>,
    pub dirty: bool,
    pub gen: bool,
}

impl ChunkData {
    /// The block array always holds exactly one entry per cell.
    pub open spec fn wf(&self) -> bool {
        self.blocks@.len() == CHUNK_VOLUME as int
    }

    /// The block stored at local coordinates, the default block outside them.
    pub open spec fn block_at(&self, x: int, y: int, z: int) -> BlockId {
        if block_in_bounds(x, y, z) {
            self.blocks@[block_index(x, y, z)]
        } else {
            BlockId(0u16)
        }
    }

    /// A fresh chunk: every block empty, dirty, not yet generated.
    pub fn new(pos: ChunkPos) -> (r: Self)
        ensures
            r.wf(),
            r.pos == pos,
            r.dirty == true,
            r.gen == false,
            forall|i: int| 0 <= i < CHUNK_VOLUME as int ==> r.blocks@[i] == BlockId(0u16),
    {
        let mut blocks: Vec<BlockId> = Vec::new();
        let mut i: usize = 0;
        while i < CHUNK_VOLUME
            invariant
                i <= CHUNK_VOLUME,
                blocks@.len() == i as int,
                forall|j: int| 0 <= j < i as int ==> blocks@[j] == BlockId(0u16),
            decreases CHUNK_VOLUME - i,
        {
            blocks.push(BlockId(0));
            i = i + 1;
        }
        ChunkData { pos, blocks, dirty: true, gen: false }
    }

    fn idx(x: usize, y: usize, z: usize) -> (r: usize)
        requires
            block_in_bounds(x as int, y as int, z as int),
        ensures
            r as int == block_index(x as int, y as int, z as int),
            r < CHUNK_VOLUME,
    {
        proof {
            assert(z as int * ((CHUNK_SIZE * CHUNK_SIZE) as int) <= 63 * 1024
                && z as int * ((CHUNK_SIZE * CHUNK_SIZE) as int) >= 0
                && y as int * (CHUNK_SIZE as int) <= 31 * 32
                && y as int * (CHUNK_SIZE as int) >= 0) by (nonlinear_arith)
                requires
                    0 <= z as int <= 63,
                    0 <= y as int <= 31,
                    (CHUNK_SIZE * CHUNK_SIZE) as int == 1024,
                    CHUNK_SIZE as int == 32;
        }
        z * (CHUNK_SIZE * CHUNK_SIZE) + y * CHUNK_SIZE + x
    }

    /// Reads one block; out-of-range coordinates read as the default block
    /// rather than failing.
    pub fn get(&self, x: usize, y: usize, z: usize) -> (r: BlockId)
        requires
            self.wf(),
        ensures
            r == self.block_at(x as int, y as int, z as int),
    {
        if x >= CHUNK_SIZE || y >= CHUNK_SIZE || z >= CHUNK_HEIGHT {
            return BlockId(0);
        }
        self.blocks[Self::idx(x, y, z)]
    }

    /// Writes one block. Out-of-range coordinates are ignored; writing the
    /// value already stored leaves the chunk's dirty flag untouched, so
    /// consumers of dirty tracking see only real changes.
    pub fn set(&mut self, x: usize, y: usize, z: usize, block: BlockId)
        requires
            old(self).wf(),
        ensures
            final(self).wf(),
            final(self).pos == old(self).pos,
            final(self).gen == old(self).gen,
            !block_in_bounds(x as int, y as int, z as int) ==> *final(self) == *old(self),
            block_in_bounds(x as int, y as int, z as int) ==> {
                let i = block_index(x as int, y as int, z as int);
                &&& final(self).blocks@ == old(self).blocks@.update(i, block)
                &&& final(self).dirty == (old(self).dirty || old(self).blocks@[i] != block)
            },
    {
        if x >= CHUNK_SIZE || y >= CHUNK_SIZE || z >= CHUNK_HEIGHT {
            return;
        }
        let i = Self::idx(x, y, z);
        if self.blocks[i] != block {
            self.blocks.set(i, block);
            self.dirty = true;
        } else {
            proof {
                assert(final(self).blocks@ =~= old(self).blocks@.update(
                    block_index(x as int, y as int, z as int), block));
            }
        }
    }

    /// Overwrites every block in the chunk and marks it dirty.
    pub fn fill(&mut self, block: BlockId)
        requires
            old(self).wf(),
        ensures
            final(self).wf(),
            final(self).pos == old(self).pos,
            final(self).gen == old(self).gen,
            final(self).dirty == true,
            forall|i: int| 0 <= i < CHUNK_VOLUME as int ==> final(self).blocks@[i] == block,
    {
        let mut i: usize = 0;
        while i < CHUNK_VOLUME
            invariant
                old(self).wf(),
                i <= CHUNK_VOLUME,
                self.wf(),
                self.pos == old(self).pos,
                self.gen == old(self).gen,
                self.dirty == old(self).dirty,
                forall|j: int| 0 <= j < i as int ==> self.blocks@[j] == block,
            decreases CHUNK_VOLUME - i,
        {
            self.blocks.set(i, block);
            i = i + 1;
        }
        self.dirty = true;
    }

    /// Overwrites one full z layer and marks the chunk dirty; an out-of-range
    /// layer is ignored.
    pub fn fill_layer(&mut self, z: usize, block: BlockId)
        requires
            old(self).wf(),
        ensures
            final(self).wf(),
            final(self).pos == old(self).pos,
            final(self).gen == old(self).gen,
            z >= CHUNK_HEIGHT ==> *final(self) == *old(self),
            z < CHUNK_HEIGHT ==> {
                let start = z as int * (CHUNK_SIZE * CHUNK_SIZE) as int;
                &&& final(self).dirty == true
                &&& forall|i: int| start <= i < start + (CHUNK_SIZE * CHUNK_SIZE) as int
                    ==> final(self).blocks@[i] == block
                &&& forall|i: int| 0 <= i < CHUNK_VOLUME as int
                    && !(start <= i < start + (CHUNK_SIZE * CHUNK_SIZE) as int)
                    ==> final(self).blocks@[i] == old(self).blocks@[i]
            },
    {
        if z >= CHUNK_HEIGHT {
            return;
        }
        let start = z * (CHUNK_SIZE * CHUNK_SIZE);
        proof {
            assert(start as int <= 63 * 1024) by (nonlinear_arith)
                requires
                    z as int <= 63,
                    start as int == z as int * ((CHUNK_SIZE * CHUNK_SIZE) as int),
                    (CHUNK_SIZE * CHUNK_SIZE) as int == 1024;
        }
        let mut i: usize = 0;
        while i < CHUNK_SIZE * CHUNK_SIZE
            invariant
                old(self).wf(),
                z < CHUNK_HEIGHT,
                start == z * (CHUNK_SIZE * CHUNK_SIZE),
                start <= 64512,
                i <= CHUNK_SIZE * CHUNK_SIZE,
                self.wf(),
                self.pos == old(self).pos,
                self.gen == old(self).gen,
                self.dirty == old(self).dirty,
                forall|j: int| start as int <= j < start as int + i as int
                    ==> self.blocks@[j] == block,
                forall|j: int| 0 <= j < CHUNK_VOLUME as int
                    && !(start as int <= j < start as int + i as int)
                    ==> self.blocks@[j] == old(self).blocks@[j],
            decreases CHUNK_SIZE * CHUNK_SIZE - i,
        {
            self.blocks.set(start + i, block);
            i = i + 1;
        }
        self.dirty = true;
    }
}

/// Writing a value into a cell that already holds it is a true no-op: the
/// block array is unchanged and the dirty flag keeps whatever value it had, so
/// a second identical `set` never re-dirties a chunk.
pub proof fn lemma_set_same_value_noop(blocks: Seq<BlockId>, i: int, block: BlockId, dirty: bool)
    requires
        0 <= i < blocks.len(),
        blocks[i] == block,
    ensures
        blocks.update(i, block) == blocks,
        (dirty || blocks[i] != block) == dirty,
{
    assert(blocks.update(i, block) =~= blocks);
}

/// Whether `p` lies within Chebyshev distance `r` of `c`: every axis delta has
/// magnitude at most `r`.
pub open spec fn within_cheb(p: ChunkPos, c: ChunkPos, r: int) -> bool {
    &&& -r <= p.x as int - c.x as int <= r
    &&& -r <= p.y as int - c.y as int <= r
    &&& -r <= p.z as int - c.z as int <= r
}

/// What a chunk looks like the moment the streamer creates it.
pub open spec fn fresh_chunk(c: ChunkData, p: ChunkPos) -> bool {
    &&& c.wf()
    &&& c.pos == p
    &&& c.dirty == true
    &&& c.gen == false
    &&& forall|i: int| 0 <= i < CHUNK_VOLUME as int ==> c.blocks@[i] == BlockId(0u16)
}

/// Owns the set of resident chunks and keeps it synchronized with a moving
/// center: chunks load within the configured radius and unload one ring
/// farther out, the slack preventing oscillation at the boundary.
pub struct ChunkManager {
    chunks: Vec<ChunkData>,
    load_dist: i32,
}

impl ChunkManager {
    /// The inclusive load radius this manager was built with.
    pub closed spec fn radius(&self) -> int {
        self.load_dist as int
    }

    /// The resident chunks, in storage order.
    pub closed spec fn spec_chunks(&self) -> Seq<ChunkData> {
        self.chunks@
    }

    /// How many chunks are resident.
    pub closed spec fn spec_cnt(&self) -> int {
        self.chunks@.len() as int
    }

    /// Whether a chunk at `p` is resident.
    pub closed spec fn resident(&self, p: ChunkPos) -> bool {
        exists|i: int| 0 <= i < self.chunks@.len() && self.chunks@[i].pos == p
    }

    /// Index of the resident chunk at `p` in `spec_chunks`.
    pub closed spec fn spec_idx_of(&self, p: ChunkPos) -> int {
        choose|i: int| 0 <= i < self.chunks@.len() && self.chunks@[i].pos == p
    }

    /// The resident chunk at `p` (meaningful only when `resident(p)`).
    pub closed spec fn spec_chunk(&self, p: ChunkPos) -> ChunkData {
        self.chunks@[self.spec_idx_of(p)]
    }

    /// Chunks are well formed, at most one is resident per position, and the
    /// radius is non-negative.
    pub closed spec fn wf(&self) -> bool {
        &&& 0 <= self.load_dist
        &&& forall|i: int| 0 <= i < self.chunks@.len() ==> (#[trigger] self.chunks@[i]).wf()
        &&& forall|i: int, j: int|
            0 <= i < j < self.chunks@.len()
                ==> (#[trigger] self.chunks@[i]).pos != (#[trigger] self.chunks@[j]).pos
    }

    /// What well-formedness guarantees about the chunk list, spelled out for
    /// callers: the count is the list's length, positions are pairwise
    /// distinct, every stored chunk is well formed, and residency is exactly
    /// membership of the list.
    pub proof fn lemma_view(&self)
        requires
            self.wf(),
        ensures
            self.spec_cnt() == self.spec_chunks().len(),
            forall|i: int, j: int| 0 <= i < j < self.spec_chunks().len()
                ==> (#[trigger] self.spec_chunks()[i]).pos
                    != (#[trigger] self.spec_chunks()[j]).pos,
            forall|i: int| 0 <= i < self.spec_chunks().len()
                ==> (#[trigger] self.spec_chunks()[i]).wf(),
            forall|i: int| 0 <= i < self.spec_chunks().len()
                ==> self.resident((#[trigger] self.spec_chunks()[i]).pos)
                    && self.spec_chunk(self.spec_chunks()[i].pos) == self.spec_chunks()[i]
                    && self.spec_idx_of(self.spec_chunks()[i].pos) == i,
            forall|p: ChunkPos| self.resident(p) ==> exists|i: int|
                0 <= i < self.spec_chunks().len()
                    && (#[trigger] self.spec_chunks()[i]).pos == p,
    {
        assert forall|i: int| 0 <= i < self.spec_chunks().len() implies
            self.resident((#[trigger] self.spec_chunks()[i]).pos)
                && self.spec_chunk(self.spec_chunks()[i].pos) == self.spec_chunks()[i]
                && self.spec_idx_of(self.spec_chunks()[i].pos) == i by {
            self.lemma_at_index(i, self.chunks@[i].pos);
        }
        assert forall|p: ChunkPos| self.resident(p) implies exists|i: int|
            0 <= i < self.spec_chunks().len()
                && (#[trigger] self.spec_chunks()[i]).pos == p by {
            let i = choose|i: int| 0 <= i < self.chunks@.len() && self.chunks@[i].pos == p;
            assert(0 <= i < self.spec_chunks().len() && self.spec_chunks()[i].pos == p);
        }
    }

    /// Replacing the chunk at one index by a well-formed chunk at the same
    /// position preserves well-formedness, residency and the other chunks;
    /// lets callers of `get_mut` and `load` rebuild `wf` after writing through
    /// the returned reference.
    pub proof fn lemma_update_in_place(m0: ChunkManager, m1: ChunkManager, i: int, c: ChunkData)
        requires
            m0.wf(),
            0 <= i < m0.spec_chunks().len(),
            c.pos == m0.spec_chunks()[i].pos,
            c.wf(),
            m1.spec_chunks() == m0.spec_chunks().update(i, c),
            m1.radius() == m0.radius(),
        ensures
            m1.wf(),
            m1.radius() == m0.radius(),
            m1.spec_cnt() == m0.spec_cnt(),
            forall|q: ChunkPos| m1.resident(q) == m0.resident(q),
            m1.spec_chunk(c.pos) == c,
            forall|q: ChunkPos| q != c.pos && m0.resident(q)
                ==> m1.spec_chunk(q) == m0.spec_chunk(q),
    {
        let p = c.pos;
        assert forall|q: ChunkPos| m1.resident(q) == m0.resident(q) by {
            if m0.resident(q) {
                let j = choose|j: int| 0 <= j < m0.chunks@.len() && m0.chunks@[j].pos == q;
                assert(m1.chunks@[if j == i { i } else { j }].pos == q);
            }
            if m1.resident(q) {
                let j = choose|j: int| 0 <= j < m1.chunks@.len() && m1.chunks@[j].pos == q;
                assert(m0.chunks@[if j == i { i } else { j }].pos == q);
            }
        }
        assert(m1.wf());
        m1.lemma_at_index(i, p);
        assert forall|q: ChunkPos| q != p && m0.resident(q) implies
            m1.spec_chunk(q) == m0.spec_chunk(q) by {
            let j = m0.spec_idx_of(q);
            assert(m0.chunks@[j].pos == q);
            assert(j != i);
            m0.lemma_at_index(j, q);
            m1.lemma_at_index(j, q);
        }
    }

    /// Appending a well-formed chunk at a position that is not yet resident
    /// preserves well-formedness and the chunks already present; lets callers
    /// of `load` rebuild `wf` after a fresh insertion.
    pub proof fn lemma_append_chunk(m0: ChunkManager, m1: ChunkManager, c: ChunkData)
        requires
            m0.wf(),
            !m0.resident(c.pos),
            c.wf(),
            m1.spec_chunks() == m0.spec_chunks().push(c),
            m1.radius() == m0.radius(),
        ensures
            m1.wf(),
            m1.spec_cnt() == m0.spec_cnt() + 1,
            m1.resident(c.pos),
            m1.spec_chunk(c.pos) == c,
            forall|q: ChunkPos| q != c.pos ==> m1.resident(q) == m0.resident(q),
            forall|q: ChunkPos| q != c.pos && m0.resident(q)
                ==> m1.spec_chunk(q) == m0.spec_chunk(q),
    {
        let n = m0.chunks@.len() as int;
        assert forall|j: int| 0 <= j < m1.chunks@.len() implies
            (#[trigger] m1.chunks@[j]).wf() by {
            if j < n {
                assert(m1.chunks@[j] == m0.chunks@[j]);
            }
        }
        assert forall|j: int, k: int| 0 <= j < k < m1.chunks@.len() implies
            (#[trigger] m1.chunks@[j]).pos != (#[trigger] m1.chunks@[k]).pos by {
            if k < n {
                assert(m1.chunks@[j] == m0.chunks@[j] && m1.chunks@[k] == m0.chunks@[k]);
            } else {
                assert(m1.chunks@[j] == m0.chunks@[j]);
                assert(m0.resident(m0.chunks@[j].pos));
            }
        }
        m1.lemma_at_index(n, c.pos);
        assert forall|q: ChunkPos| q != c.pos implies m1.resident(q) == m0.resident(q) by {
            if m0.resident(q) {
                let j = choose|j: int| 0 <= j < m0.chunks@.len() && m0.chunks@[j].pos == q;
                assert(m1.chunks@[j].pos == q);
            }
            if m1.resident(q) {
                let j = choose|j: int| 0 <= j < m1.chunks@.len() && m1.chunks@[j].pos == q;
                assert(j < n);
                assert(m0.chunks@[j].pos == q);
            }
        }
        assert forall|q: ChunkPos| q != c.pos && m0.resident(q) implies
            m1.spec_chunk(q) == m0.spec_chunk(q) by {
            let j = m0.spec_idx_of(q);
            assert(m0.chunks@[j].pos == q);
            m0.lemma_at_index(j, q);
            m1.lemma_at_index(j, q);
        }
    }

    /// Under `wf`, an index holding position `p` is the unique one `spec_chunk`
    /// reads from.
    proof fn lemma_at_index(&self, i: int, p: ChunkPos)
        requires
            self.wf(),
            0 <= i < self.chunks@.len(),
            self.chunks@[i].pos == p,
        ensures
            self.resident(p),
            self.spec_idx_of(p) == i,
            self.spec_chunk(p) == self.chunks@[i],
    {
        let j = self.spec_idx_of(p);
        if j != i {
            assert(self.chunks@[i].pos != self.chunks@[j].pos);
        }
    }

    pub fn new(load_dist: i32) -> (r: Self)
        requires
            0 <= load_dist,
        ensures
            r.wf(),
            r.radius() == load_dist as int,
            r.spec_cnt() == 0,
            forall|p: ChunkPos| !r.resident(p),
    {
        ChunkManager { chunks: Vec::new(), load_dist }
    }

    /// Index of the chunk at `pos`, if one is resident.
    fn find_index(&self, pos: &ChunkPos) -> (r: Option<usize>)
        requires
            self.wf(),
        ensures
            match r {
                Some(i) => i < self.chunks@.len() && self.chunks@[i as int].pos == *pos
                    && self.resident(*pos) && self.spec_idx_of(*pos) == i as int,
                None => !self.resident(*pos),
            },
    {
        let n = self.chunks.len();
        let mut i: usize = 0;
        while i < n
            invariant
                self.wf(),
                n == self.chunks@.len(),
                i <= n,
                forall|j: int| 0 <= j < i as int ==> self.chunks@[j].pos != *pos,
            decreases n - i,
        {
            if self.chunks[i].pos == *pos {
                proof {
                    self.lemma_at_index(i as int, *pos);
                }
                return Some(i);
            }
            i = i + 1;
        }
        return None;
    }

    /// Shared access to the resident chunk at `pos`.
    pub fn get(&self, pos: &ChunkPos) -> (r: Option<&ChunkData>)
        requires
            self.wf(),
        ensures
            match r {
                Some(c) => self.resident(*pos) && *c == self.spec_chunk(*pos) && c.wf(),
                None => !self.resident(*pos),
            },
    {
        match self.find_index(pos) {
            Some(i) => Some(&self.chunks[i]),
            None => None,
        }
    }

    /// Exclusive access to the resident chunk at `pos`. The manager stays well
    /// formed as long as the caller does not move the chunk to another
    /// position.
    pub fn get_mut(&mut self, pos: &ChunkPos) -> (r: Option<&mut ChunkData>)
        requires
            old(self).wf(),
        ensures
            match r {
                Some(c) => {
                    &&& old(self).resident(*pos)
                    &&& *c == old(self).spec_chunk(*pos)
                    &&& (*c).wf()
                    &&& 0 <= old(self).spec_idx_of(*pos) < old(self).spec_chunks().len()
                    &&& old(self).spec_chunks()[old(self).spec_idx_of(*pos)].pos == *pos
                    &&& final(self).spec_chunks() == old(self).spec_chunks().update(
                        old(self).spec_idx_of(*pos), *final(c))
                    &&& final(self).radius() == old(self).radius()
                },
                None => !old(self).resident(*pos) && *final(self) == *old(self),
            },
    {
        match self.find_index(pos) {
            Some(i) => {
                let c = &mut self.chunks[i];
                Some(c)
            },
            None => None,
        }
    }

    /// Returns the chunk at `pos`, creating a fresh one first if none is
    /// resident; the insertion is idempotent.
    pub fn load(&mut self, pos: ChunkPos) -> (r: &mut ChunkData)
        requires
            old(self).wf(),
        ensures
            old(self).resident(pos) ==> *r == old(self).spec_chunk(pos),
            !old(self).resident(pos) ==> fresh_chunk(*r, pos),
            (*r).wf(),
            r.pos == pos,
            final(self).spec_chunks() =~= if old(self).resident(pos) {
                old(self).spec_chunks().update(old(self).spec_idx_of(pos), *final(r))
            } else {
                old(self).spec_chunks().push(*final(r))
            },
            old(self).resident(pos) ==> 0 <= old(self).spec_idx_of(pos)
                < old(self).spec_chunks().len()
                && old(self).spec_chunks()[old(self).spec_idx_of(pos)].pos == pos,
            final(self).radius() == old(self).radius(),
            final(self).spec_cnt() == old(self).spec_cnt()
                + if old(self).resident(pos) { 0int } else { 1int },
    {
        let ghost m0 = *old(self);
        let i: usize = match self.find_index(&pos) {
            Some(i) => i,
            None => {
                let n = self.chunks.len();
                self.chunks.push(ChunkData::new(pos));
                proof {
                    assert forall|k: int| 0 <= k < self.chunks@.len() implies
                        (#[trigger] self.chunks@[k]).wf() by {
                        if k < n as int {
                            assert(self.chunks@[k] == m0.chunks@[k]);
                        }
                    }
                    assert(self.wf());
                    self.lemma_at_index(n as int, pos);
                }
                n
            },
        };
        proof {
            assert(self.chunks@[i as int].pos == pos);
        }
        let c = &mut self.chunks[i];
        c
    }

    /// Removes and returns the chunk at `pos`; a miss changes nothing.
    pub fn unload(&mut self, pos: &ChunkPos) -> (r: Option<ChunkData>)
        requires
            old(self).wf(),
        ensures
            final(self).wf(),
            final(self).radius() == old(self).radius(),
            !final(self).resident(*pos),
            match r {
                Some(c) => {
                    &&& old(self).resident(*pos)
                    &&& c == old(self).spec_chunk(*pos)
                    &&& final(self).spec_cnt() == old(self).spec_cnt() - 1
                },
                None => !old(self).resident(*pos) && *final(self) == *old(self),
            },
            forall|q: ChunkPos| q != *pos
                ==> final(self).resident(q) == old(self).resident(q),
            forall|q: ChunkPos| q != *pos && old(self).resident(q)
                ==> final(self).spec_chunk(q) == old(self).spec_chunk(q),
    {
        match self.find_index(pos) {
            Some(i) => {
                let c = self.chunks.remove(i);
                proof {
                    let cs = self.chunks@;
                    let ocs = old(self).chunks@;
                    assert forall|q: ChunkPos| q != *pos implies
                        final(self).resident(q) == old(self).resident(q) by {
                        if old(self).resident(q) {
                            let j = choose|j: int| 0 <= j < ocs.len() && ocs[j].pos == q;
                            if j < i as int {
                                assert(cs[j].pos == q);
                            } else {
                                assert(j > i as int);
                                assert(cs[j - 1].pos == q);
                            }
                        }
                        if self.resident(q) {
                            let j = choose|j: int| 0 <= j < cs.len() && cs[j].pos == q;
                            if j < i as int {
                                assert(ocs[j].pos == q);
                            } else {
                                assert(ocs[j + 1].pos == q);
                            }
                        }
                    }
                    assert forall|q: ChunkPos| q != *pos && old(self).resident(q) implies
                        final(self).spec_chunk(q) == old(self).spec_chunk(q) by {
                        let j = old(self).spec_idx_of(q);
                        if j < i as int {
                            self.lemma_at_index(j, q);
                        } else {
                            assert(ocs[j].pos == q && j != i as int);
                            assert(cs[j - 1] == ocs[j]);
                            self.lemma_at_index(j - 1, q);
                        }
                    }
                    assert forall|j: int| 0 <= j < cs.len() implies cs[j].pos != *pos by {
                        if j < i as int {
                            assert(cs[j] == ocs[j]);
                        } else {
                            assert(cs[j] == ocs[j + 1]);
                        }
                    }
                }
                Some(c)
            },
            None => None,
        }
    }

    /// Number of resident chunks.
    pub fn cnt(&self) -> (r: usize)
        ensures
            r as int == self.spec_cnt(),
    {
        self.chunks.len()
    }

    /// Positions of exactly the chunks whose dirty flag is set, for an
    /// external renderer to consume.
    pub fn dirty_chunks(&self) -> (r: Vec<ChunkPos>)
        requires
            self.wf(),
        ensures
            forall|p: ChunkPos| #![trigger r@.contains(p)]
                r@.contains(p) <==> self.resident(p) && self.spec_chunk(p).dirty,
            forall|k1: int, k2: int| 0 <= k1 < k2 < r@.len() ==> r@[k1] != r@[k2],
    {
        let n = self.chunks.len();
        let mut out: Vec<ChunkPos> = Vec::new();
        let mut i: usize = 0;
        while i < n
            invariant
                self.wf(),
                n == self.chunks@.len(),
                i <= n,
                forall|p: ChunkPos| out@.contains(p) <==> exists|j: int|
                    0 <= j < i as int && (#[trigger] self.chunks@[j]).pos == p
                        && self.chunks@[j].dirty,
                forall|k1: int, k2: int| 0 <= k1 < k2 < out@.len() ==> out@[k1] != out@[k2],
            decreases n - i,
        {
            let ghost out0 = out@;
            if self.chunks[i].dirty {
                let p = self.chunks[i].pos;
                proof {
                    if out0.contains(p) {
                        let j = choose|j: int| 0 <= j < i as int
                            && self.chunks@[j].pos == p && self.chunks@[j].dirty;
                        assert(self.chunks@[j].pos != self.chunks@[i as int].pos);
                    }
                }
                out.push(p);
                proof {
                    assert forall|q: ChunkPos| out@.contains(q) implies exists|j: int|
                        0 <= j < i as int + 1 && (#[trigger] self.chunks@[j]).pos == q
                            && self.chunks@[j].dirty by {
                        let k = choose|k: int| 0 <= k < out@.len() && out@[k] == q;
                        if k < out0.len() {
                            assert(out0[k] == q);
                            assert(out0.contains(q));
                            let j = choose|j: int| 0 <= j < i as int
                                && (#[trigger] self.chunks@[j]).pos == q
                                    && self.chunks@[j].dirty;
                            assert(self.chunks@[j].pos == q && self.chunks@[j].dirty);
                        } else {
                            assert(q == p);
                            assert(self.chunks@[i as int].pos == q && self.chunks@[i as int].dirty);
                        }
                    }
                    assert forall|q: ChunkPos| (exists|j: int|
                        0 <= j < i as int + 1 && (#[trigger] self.chunks@[j]).pos == q
                            && self.chunks@[j].dirty) implies out@.contains(q) by {
                        let j = choose|j: int| 0 <= j < i as int + 1
                            && (#[trigger] self.chunks@[j]).pos == q && self.chunks@[j].dirty;
                        if j < i as int {
                            assert(out0.contains(q));
                            let k = choose|k: int| 0 <= k < out0.len() && out0[k] == q;
                            assert(out@[k] == q);
                        } else {
                            assert(out@[out@.len() - 1] == q);
                        }
                    }
                }
            } else {
                proof {
                    assert forall|q: ChunkPos| (exists|j: int|
                        0 <= j < i as int + 1 && (#[trigger] self.chunks@[j]).pos == q
                            && self.chunks@[j].dirty) implies out@.contains(q) by {
                        let j = choose|j: int| 0 <= j < i as int + 1
                            && (#[trigger] self.chunks@[j]).pos == q && self.chunks@[j].dirty;
                        assert(j < i as int);
                    }
                }
            }
            i = i + 1;
        }
        proof {
            assert forall|p: ChunkPos| out@.contains(p) implies
                self.resident(p) && self.spec_chunk(p).dirty by {
                let j = choose|j: int| 0 <= j < n as int
                    && self.chunks@[j].pos == p && self.chunks@[j].dirty;
                self.lemma_at_index(j, p);
            }
            assert forall|p: ChunkPos| self.resident(p) && self.spec_chunk(p).dirty implies
                out@.contains(p) by {
                let j = self.spec_idx_of(p);
                assert(0 <= j < n as int && self.chunks@[j].pos == p && self.chunks@[j].dirty);
            }
        }
        out
    }

    /// Clears the dirty flag of the chunk at `pos`; a miss changes nothing.
    pub fn mark_clean(&mut self, pos: &ChunkPos)
        requires
            old(self).wf(),
        ensures
            final(self).wf(),
            final(self).radius() == old(self).radius(),
            final(self).spec_cnt() == old(self).spec_cnt(),
            forall|q: ChunkPos| final(self).resident(q) == old(self).resident(q),
            !old(self).resident(*pos) ==> *final(self) == *old(self),
            old(self).resident(*pos) ==> final(self).spec_chunk(*pos)
                == (ChunkData { dirty: false, ..old(self).spec_chunk(*pos) }),
            forall|q: ChunkPos| q != *pos && old(self).resident(q)
                ==> final(self).spec_chunk(q) == old(self).spec_chunk(q),
    {
        match self.find_index(pos) {
            Some(i) => {
                let ghost ocs = self.chunks@;
                let c = &mut self.chunks[i];
                c.dirty = false;
                proof {
                    assert(self.chunks@ =~= ocs.update(
                        i as int, ChunkData { dirty: false, ..ocs[i as int] }));
                    assert forall|q: ChunkPos| final(self).resident(q) == old(self).resident(q) by {
                        if old(self).resident(q) {
                            let j = old(self).spec_idx_of(q);
                            assert(self.chunks@[j].pos == q);
                        }
                        if self.resident(q) {
                            let j = self.spec_idx_of(q);
                            assert(old(self).chunks@[j].pos == q);
                        }
                    }
                    self.lemma_at_index(i as int, *pos);
                    assert forall|q: ChunkPos| q != *pos && old(self).resident(q) implies
                        final(self).spec_chunk(q) == old(self).spec_chunk(q) by {
                        let j = old(self).spec_idx_of(q);
                        assert(old(self).chunks@[j].pos == q);
                        assert(j != i as int);
                        self.lemma_at_index(j, q);
                    }
                }
            },
            None => {},
        }
    }
}

/// Lexicographic "already scanned" order for the load scan: whether offset
/// `(p - c)` comes strictly before `(dz, dy, dx)` in z, then y, then x order.
spec fn scanned_before(p: ChunkPos, c: ChunkPos, dz: int, dy: int, dx: int) -> bool {
    let ez = p.z as int - c.z as int;
    let ey = p.y as int - c.y as int;
    let ex = p.x as int - c.x as int;
    ez < dz || (ez == dz && (ey < dy || (ey == dy && ex < dx)))
}

/// Some source chunk past `lo` equals `c` and lies inside the ring.
spec fn ring_entry(c: ChunkData, src: Seq<ChunkData>, lo: int, center: ChunkPos, lim: int) -> bool {
    exists|j: int| lo <= j < src.len() && src[j] == c && within_cheb(src[j].pos, center, lim)
}

/// Every kept chunk is one of the source chunks past `lo`, inside the ring.
spec fn kept_matches(kept: Seq<ChunkData>, src: Seq<ChunkData>, lo: int, center: ChunkPos, lim: int) -> bool {
    forall|k: int| 0 <= k < kept.len()
        ==> #[trigger] ring_entry(kept[k], src, lo, center, lim)
}

/// Every source chunk past `lo` that lies inside the ring has been kept.
spec fn kept_covers(kept: Seq<ChunkData>, src: Seq<ChunkData>, lo: int, center: ChunkPos, lim: int) -> bool {
    forall|j: int| lo <= j < src.len()
        && within_cheb((#[trigger] src[j]).pos, center, lim)
        ==> kept.contains(src[j])
}

/// `push` extends a sequence's membership by exactly the pushed element.
proof fn lemma_push_contains(s: Seq<ChunkPos>, p: ChunkPos)
    ensures
        forall|q: ChunkPos| s.push(p).contains(q) <==> s.contains(q) || q == p,
{
    assert forall|q: ChunkPos| s.push(p).contains(q) implies s.contains(q) || q == p by {
        let k = choose|k: int| 0 <= k < s.push(p).len() && s.push(p)[k] == q;
        if k < s.len() {
            assert(s[k] == q);
        }
    }
    assert forall|q: ChunkPos| s.contains(q) || q == p implies s.push(p).contains(q) by {
        if s.contains(q) {
            let k = choose|k: int| 0 <= k < s.len() && s[k] == q;
            assert(s.push(p)[k] == q);
        } else {
            assert(s.push(p)[s.len() as int] == q);
        }
    }
}

impl ChunkManager {
    /// One streaming tick. Loads a fresh chunk at every position of the
    /// `(2R+1)^3` cube around `center` that is not already resident, unloads
    /// every resident chunk farther than `R+1` from `center` on any axis, and
    /// returns the newly loaded positions. Loading at `R` but unloading only
    /// beyond `R+1` keeps a one-chunk hysteresis ring, so a center oscillating
    /// across a cell boundary does not thrash.
    #[verifier::loop_isolation(false)]
    #[verifier::rlimit(100)]
    pub fn upd_around(&mut self, center: ChunkPos) -> (r: Vec<ChunkPos>)
        requires
            old(self).wf(),
            i32::MIN as int <= center.x as int - old(self).radius(),
            center.x as int + old(self).radius() <= i32::MAX as int,
            i32::MIN as int <= center.y as int - old(self).radius(),
            center.y as int + old(self).radius() <= i32::MAX as int,
            i32::MIN as int <= center.z as int - old(self).radius(),
            center.z as int + old(self).radius() <= i32::MAX as int,
        ensures
            final(self).wf(),
            final(self).radius() == old(self).radius(),
            forall|p: ChunkPos| final(self).resident(p)
                <==> (within_cheb(p, center, old(self).radius())
                    || (old(self).resident(p) && within_cheb(p, center, old(self).radius() + 1))),
            forall|p: ChunkPos| within_cheb(p, center, old(self).radius())
                ==> final(self).resident(p),
            forall|p: ChunkPos| final(self).resident(p)
                ==> within_cheb(p, center, old(self).radius() + 1),
            forall|p: ChunkPos| old(self).resident(p)
                && within_cheb(p, center, old(self).radius() + 1)
                ==> final(self).spec_chunk(p) == old(self).spec_chunk(p),
            forall|p: ChunkPos| within_cheb(p, center, old(self).radius())
                && !old(self).resident(p)
                ==> fresh_chunk(final(self).spec_chunk(p), p),
            forall|p: ChunkPos| r@.contains(p)
                <==> within_cheb(p, center, old(self).radius()) && !old(self).resident(p),
            forall|k1: int, k2: int| 0 <= k1 < k2 < r@.len() ==> r@[k1] != r@[k2],
            old(self).spec_cnt() == 0 ==> final(self).spec_cnt() == r@.len()
                && r@.len() == (2 * old(self).radius() + 1) * (2 * old(self).radius() + 1)
                    * (2 * old(self).radius() + 1),
    {
        let ghost m0 = *old(self);
        let rad = self.load_dist;
        let ghost radi = rad as int;

        // Scan the load cube against the current resident set.
        let mut to_load: Vec<ChunkPos> = Vec::new();
        let mut dz: i64 = -(rad as i64);
        proof {
            assert((dz as int + radi) * ((2 * radi + 1) * (2 * radi + 1)) == 0)
                by (nonlinear_arith)
                requires dz as int + radi == 0;
        }
        while dz <= rad as i64
            invariant
                *self == m0,
                self.wf(),
                rad == self.load_dist,
                i32::MIN as int <= center.x as int - radi,
                center.x as int + radi <= i32::MAX as int,
                i32::MIN as int <= center.y as int - radi,
                center.y as int + radi <= i32::MAX as int,
                i32::MIN as int <= center.z as int - radi,
                center.z as int + radi <= i32::MAX as int,
                -radi <= dz as int <= radi + 1,
                forall|p: ChunkPos| #![trigger to_load@.contains(p)] to_load@.contains(p)
                    <==> within_cheb(p, center, radi) && !m0.resident(p)
                        && scanned_before(p, center, dz as int, -radi, -radi),
                forall|k1: int, k2: int| 0 <= k1 < k2 < to_load@.len()
                    ==> to_load@[k1] != to_load@[k2],
                m0.spec_cnt() == 0 ==> to_load@.len()
                    == (dz as int + radi) * ((2 * radi + 1) * (2 * radi + 1)),
            decreases radi + 1 - dz as int,
        {
            let mut dy: i64 = -(rad as i64);
            proof {
                assert((dy as int + radi) * (2 * radi + 1) == 0)
                    by (nonlinear_arith)
                    requires dy as int + radi == 0;
                assert forall|p: ChunkPos| #![trigger to_load@.contains(p)]
                    to_load@.contains(p)
                    <==> within_cheb(p, center, radi) && !m0.resident(p)
                        && scanned_before(p, center, dz as int, dy as int, -radi) by {
                    assert(scanned_before(p, center, dz as int, dy as int, -radi)
                        == scanned_before(p, center, dz as int, -radi, -radi));
                }
            }
            while dy <= rad as i64
                invariant
                    *self == m0,
                    self.wf(),
                    rad == self.load_dist,
                    i32::MIN as int <= center.x as int - radi,
                    center.x as int + radi <= i32::MAX as int,
                    i32::MIN as int <= center.y as int - radi,
                    center.y as int + radi <= i32::MAX as int,
                    i32::MIN as int <= center.z as int - radi,
                    center.z as int + radi <= i32::MAX as int,
                    -radi <= dz as int <= radi,
                    -radi <= dy as int <= radi + 1,
                    forall|p: ChunkPos| #![trigger to_load@.contains(p)] to_load@.contains(p)
                        <==> within_cheb(p, center, radi) && !m0.resident(p)
                            && scanned_before(p, center, dz as int, dy as int, -radi),
                    forall|k1: int, k2: int| 0 <= k1 < k2 < to_load@.len()
                        ==> to_load@[k1] != to_load@[k2],
                    m0.spec_cnt() == 0 ==> to_load@.len()
                        == (dz as int + radi) * ((2 * radi + 1) * (2 * radi + 1))
                            + (dy as int + radi) * (2 * radi + 1),
                decreases radi + 1 - dy as int,
            {
                let mut dx: i64 = -(rad as i64);
                proof {
                    assert forall|p: ChunkPos| #![trigger to_load@.contains(p)]
                        to_load@.contains(p)
                        <==> within_cheb(p, center, radi) && !m0.resident(p)
                            && scanned_before(p, center, dz as int, dy as int, dx as int) by {
                        assert(scanned_before(p, center, dz as int, dy as int, dx as int)
                            == scanned_before(p, center, dz as int, dy as int, -radi));
                    }
                }
                while dx <= rad as i64
                    invariant
                        *self == m0,
                        self.wf(),
                        rad == self.load_dist,
                        i32::MIN as int <= center.x as int - radi,
                        center.x as int + radi <= i32::MAX as int,
                        i32::MIN as int <= center.y as int - radi,
                        center.y as int + radi <= i32::MAX as int,
                        i32::MIN as int <= center.z as int - radi,
                        center.z as int + radi <= i32::MAX as int,
                        -radi <= dz as int <= radi,
                        -radi <= dy as int <= radi,
                        -radi <= dx as int <= radi + 1,
                        forall|p: ChunkPos| #![trigger to_load@.contains(p)]
                            to_load@.contains(p)
                            <==> within_cheb(p, center, radi) && !m0.resident(p)
                                && scanned_before(p, center, dz as int, dy as int, dx as int),
                        forall|k1: int, k2: int| 0 <= k1 < k2 < to_load@.len()
                            ==> to_load@[k1] != to_load@[k2],
                        m0.spec_cnt() == 0 ==> to_load@.len()
                            == (dz as int + radi) * ((2 * radi + 1) * (2 * radi + 1))
                                + (dy as int + radi) * (2 * radi + 1) + (dx as int + radi),
                    decreases radi + 1 - dx as int,
                {
                    let p = ChunkPos {
                        x: (center.x as i64 + dx) as i32,
                        y: (center.y as i64 + dy) as i32,
                        z: (center.z as i64 + dz) as i32,
                    };
                    proof {
                        assert(p.x as int == center.x as int + dx as int);
                        assert(p.y as int == center.y as int + dy as int);
                        assert(p.z as int == center.z as int + dz as int);
                        assert(within_cheb(p, center, radi));
                    }
                    let ghost tl0 = to_load@;
                    let already = match self.get(&p) {
                        Some(_) => true,
                        None => false,
                    };
                    if !already {
                        proof {
                            lemma_push_contains(tl0, p);
                            assert(!scanned_before(p, center, dz as int, dy as int, dx as int));
                            assert(!tl0.contains(p));
                        }
                        to_load.push(p);
                    }
                    let ghost olddx = dx as int;
                    dx = dx + 1;
                    proof {
                        assert forall|q: ChunkPos| #![trigger to_load@.contains(q)]
                            to_load@.contains(q)
                            <==> within_cheb(q, center, radi) && !m0.resident(q)
                                && scanned_before(q, center, dz as int, dy as int, dx as int) by {
                            assert(tl0.contains(q) <==> within_cheb(q, center, radi)
                                && !m0.resident(q)
                                && scanned_before(q, center, dz as int, dy as int, olddx));
                            if already {
                                assert(m0.resident(p));
                                assert(to_load@ == tl0);
                            } else {
                                assert(to_load@ == tl0.push(p));
                                assert(to_load@.contains(q) <==> tl0.contains(q) || q == p);
                                assert(!m0.resident(p));
                            }
                            assert(scanned_before(q, center, dz as int, dy as int, dx as int)
                                == (scanned_before(q, center, dz as int, dy as int, olddx)
                                    || (q.z as int - center.z as int == dz as int
                                        && q.y as int - center.y as int == dy as int
                                        && q.x as int - center.x as int == olddx)));
                            if q.z as int - center.z as int == dz as int
                                && q.y as int - center.y as int == dy as int
                                && q.x as int - center.x as int == olddx {
                                assert(q == p);
                            }
                        }
                    }
                }
                let ghost olddy = dy as int;
                dy = dy + 1;
                proof {
                    if m0.spec_cnt() == 0 {
                        let s1 = 2 * radi + 1;
                        assert((olddy + radi) * s1 + s1 == (olddy + 1 + radi) * s1)
                            by (nonlinear_arith);
                    }
                    assert forall|p: ChunkPos| to_load@.contains(p)
                        <==> within_cheb(p, center, radi) && !m0.resident(p)
                            && scanned_before(p, center, dz as int, dy as int, -radi) by {
                        if within_cheb(p, center, radi) {
                            assert(scanned_before(p, center, dz as int, dy as int, -radi)
                                == scanned_before(p, center, dz as int, olddy, radi + 1));
                        }
                    }
                }
            }
            let ghost olddz = dz as int;
            dz = dz + 1;
            proof {
                if m0.spec_cnt() == 0 {
                    let s1 = 2 * radi + 1;
                    assert((olddz + radi) * (s1 * s1) + s1 * s1 == (olddz + 1 + radi) * (s1 * s1))
                        by (nonlinear_arith);
                }
                assert forall|p: ChunkPos| #![trigger to_load@.contains(p)]
                    to_load@.contains(p)
                    <==> within_cheb(p, center, radi) && !m0.resident(p)
                        && scanned_before(p, center, dz as int, -radi, -radi) by {
                    if within_cheb(p, center, radi) {
                        assert(scanned_before(p, center, dz as int, -radi, -radi)
                            == scanned_before(p, center, olddz, radi + 1, -radi));
                    }
                }
            }
        }

        // Drop every resident chunk outside the hysteresis ring.
        let mut kept: Vec<ChunkData> = Vec::new();
        loop
            invariant
                rad == self.load_dist,
                self.chunks@ =~= m0.chunks@.subrange(0, self.chunks@.len() as int),
                self.chunks@.len() <= m0.chunks@.len(),
                kept_matches(kept@, m0.chunks@, self.chunks@.len() as int, center, radi + 1),
                kept_covers(kept@, m0.chunks@, self.chunks@.len() as int, center, radi + 1),
                forall|k1: int, k2: int| 0 <= k1 < k2 < kept@.len()
                    ==> (#[trigger] kept@[k1]).pos != (#[trigger] kept@[k2]).pos,
                forall|k: int, j: int| 0 <= k < kept@.len() && 0 <= j < self.chunks@.len()
                    ==> (#[trigger] kept@[k]).pos != (#[trigger] self.chunks@[j]).pos,
            decreases self.chunks@.len(),
        {
            let ghost nprev = self.chunks@.len() as int;
            let copt = self.chunks.pop();
            match copt {
                None => {
                    break;
                },
                Some(c) => {
                    proof {
                        assert(c == m0.chunks@[nprev - 1]);
                        assert(self.chunks@.len() as int == nprev - 1);
                    }
                    let ex = c.pos.x as i64 - center.x as i64;
                    let ey = c.pos.y as i64 - center.y as i64;
                    let ez = c.pos.z as i64 - center.z as i64;
                    let lim = rad as i64 + 1;
                    if -lim <= ex && ex <= lim && -lim <= ey && ey <= lim
                        && -lim <= ez && ez <= lim {
                        proof {
                            assert(within_cheb(c.pos, center, radi + 1));
                            assert forall|k: int| 0 <= k < kept@.len() implies
                                (#[trigger] kept@[k]).pos != c.pos by {
                                assert(ring_entry(kept@[k], m0.chunks@, nprev, center, radi + 1));
                                let j = choose|j: int| nprev <= j < m0.chunks@.len()
                                    && m0.chunks@[j] == kept@[k]
                                    && within_cheb(m0.chunks@[j].pos, center, radi + 1);
                                assert(m0.chunks@[j].pos != m0.chunks@[nprev - 1].pos);
                            }
                        }
                        let ghost kept0 = kept@;
                        kept.push(c);
                        proof {
                            assert forall|k: int| 0 <= k < kept@.len() implies
                                #[trigger] ring_entry(kept@[k], m0.chunks@, nprev - 1,
                                    center, radi + 1) by {
                                if k < kept0.len() {
                                    assert(kept@[k] == kept0[k]);
                                    assert(ring_entry(kept0[k], m0.chunks@, nprev,
                                        center, radi + 1));
                                    let j = choose|j: int| nprev <= j < m0.chunks@.len()
                                        && m0.chunks@[j] == kept0[k]
                                        && within_cheb(m0.chunks@[j].pos, center, radi + 1);
                                    assert(nprev - 1 <= j < m0.chunks@.len()
                                        && m0.chunks@[j] == kept@[k]
                                        && within_cheb(m0.chunks@[j].pos, center, radi + 1));
                                } else {
                                    assert(kept@[k] == c);
                                    assert(nprev - 1 <= nprev - 1 < m0.chunks@.len()
                                        && m0.chunks@[nprev - 1] == kept@[k]
                                        && within_cheb(m0.chunks@[nprev - 1].pos,
                                            center, radi + 1));
                                }
                            }
                            assert(kept_matches(kept@, m0.chunks@, nprev - 1, center, radi + 1));
                            assert forall|j: int| nprev - 1 <= j < m0.chunks@.len()
                                && within_cheb((#[trigger] m0.chunks@[j]).pos, center, radi + 1)
                                implies kept@.contains(m0.chunks@[j]) by {
                                if j >= nprev {
                                    assert(kept0.contains(m0.chunks@[j]));
                                    let k = choose|k: int| 0 <= k < kept0.len()
                                        && kept0[k] == m0.chunks@[j];
                                    assert(kept@[k] == m0.chunks@[j]);
                                } else {
                                    assert(kept@[kept@.len() - 1] == m0.chunks@[j]);
                                }
                            }
                            assert(kept_covers(kept@, m0.chunks@, nprev - 1, center, radi + 1));
                        }
                    } else {
                        proof {
                            assert(!within_cheb(c.pos, center, radi + 1));
                            assert forall|k: int| 0 <= k < kept@.len() implies
                                #[trigger] ring_entry(kept@[k], m0.chunks@, nprev - 1,
                                    center, radi + 1) by {
                                assert(ring_entry(kept@[k], m0.chunks@, nprev, center, radi + 1));
                                let j = choose|j: int| nprev <= j < m0.chunks@.len()
                                    && m0.chunks@[j] == kept@[k]
                                    && within_cheb(m0.chunks@[j].pos, center, radi + 1);
                                assert(nprev - 1 <= j < m0.chunks@.len()
                                    && m0.chunks@[j] == kept@[k]
                                    && within_cheb(m0.chunks@[j].pos, center, radi + 1));
                            }
                            assert(kept_matches(kept@, m0.chunks@, nprev - 1, center, radi + 1));
                            assert forall|j: int| nprev - 1 <= j < m0.chunks@.len()
                                && within_cheb((#[trigger] m0.chunks@[j]).pos, center, radi + 1)
                                implies kept@.contains(m0.chunks@[j]) by {
                                assert(j != nprev - 1);
                                assert(j >= nprev);
                            }
                            assert(kept_covers(kept@, m0.chunks@, nprev - 1, center, radi + 1));
                        }
                    }
                },
            }
        }
        self.chunks = kept;
        let ghost m1 = *self;
        proof {
            if m0.spec_cnt() == 0 {
                assert(kept@.len() == 0) by {
                    if kept@.len() > 0 {
                        assert(ring_entry(kept@[0], m0.chunks@, 0, center, radi + 1));
                        let j = choose|j: int| 0 <= j < m0.chunks@.len()
                            && m0.chunks@[j] == kept@[0]
                            && within_cheb(m0.chunks@[j].pos, center, radi + 1);
                    }
                }
                assert(m1.spec_cnt() == 0);
            }
            assert(kept_matches(m1.chunks@, m0.chunks@, 0, center, radi + 1));
            assert(kept_covers(m1.chunks@, m0.chunks@, 0, center, radi + 1));
            assert forall|j: int| 0 <= j < m1.chunks@.len() implies
                (#[trigger] m1.chunks@[j]).wf() by {
                assert(ring_entry(m1.chunks@[j], m0.chunks@, 0, center, radi + 1));
                let jj = choose|jj: int| 0 <= jj < m0.chunks@.len()
                    && m0.chunks@[jj] == m1.chunks@[j]
                    && within_cheb(m0.chunks@[jj].pos, center, radi + 1);
            }
            assert(m1.wf());
            assert forall|p: ChunkPos| m1.resident(p) implies
                m0.resident(p) && within_cheb(p, center, radi + 1)
                    && m1.spec_chunk(p) == m0.spec_chunk(p) by {
                let k = choose|k: int| 0 <= k < m1.chunks@.len() && m1.chunks@[k].pos == p;
                assert(ring_entry(m1.chunks@[k], m0.chunks@, 0, center, radi + 1));
                let j = choose|j: int| 0 <= j < m0.chunks@.len()
                    && m0.chunks@[j] == m1.chunks@[k]
                    && within_cheb(m0.chunks@[j].pos, center, radi + 1);
                m0.lemma_at_index(j, p);
                m1.lemma_at_index(k, p);
            }
            assert forall|p: ChunkPos| m0.resident(p) && within_cheb(p, center, radi + 1)
                implies m1.resident(p) by {
                let j = m0.spec_idx_of(p);
                assert(m0.chunks@[j].pos == p);
                assert(kept@.contains(m0.chunks@[j]));
                let k = choose|k: int| 0 <= k < kept@.len() && kept@[k] == m0.chunks@[j];
                assert(m1.chunks@[k].pos == p);
            }
        }

        proof {
            assert forall|p: ChunkPos| within_cheb(p, center, radi) && !m0.resident(p)
                implies #[trigger] to_load@.contains(p) by {
                assert(scanned_before(p, center, radi + 1, -radi, -radi));
            }
        }

        // Create the missing chunks inside the load radius.
        let n_load = to_load.len();
        let mut k: usize = 0;
        while k < n_load
            invariant
                rad == self.load_dist,
                k <= n_load,
                self.wf(),
                forall|p: ChunkPos| self.resident(p) <==> m1.resident(p)
                    || exists|j: int| 0 <= j < k as int && to_load@[j] == p,
                forall|p: ChunkPos| m1.resident(p)
                    ==> self.resident(p) && self.spec_chunk(p) == m1.spec_chunk(p),
                forall|j: int| 0 <= j < k as int
                    ==> self.resident(#[trigger] to_load@[j])
                        && fresh_chunk(self.spec_chunk(to_load@[j]), to_load@[j]),
                self.spec_cnt() == m1.spec_cnt() + k as int,
            decreases n_load - k,
        {
            let p = to_load[k];
            proof {
                assert(to_load@.contains(p));
                assert(!m0.resident(p));
                assert(!m1.resident(p));
                if self.resident(p) {
                    let j = choose|j: int| 0 <= j < k as int && to_load@[j] == p;
                    assert(to_load@[j] == to_load@[k as int]);
                }
            }
            let ghost prev = *self;
            let fc = ChunkData::new(p);
            let ghost gfc = fc;
            self.chunks.push(fc);
            proof {
                ChunkManager::lemma_append_chunk(prev, *self, gfc);
                assert forall|q: ChunkPos| self.resident(q) implies m1.resident(q)
                    || exists|j: int| 0 <= j < k as int + 1 && to_load@[j] == q by {
                    if q == p {
                        assert(to_load@[k as int] == q);
                    }
                }
                assert forall|q: ChunkPos| (m1.resident(q)
                    || exists|j: int| 0 <= j < k as int + 1 && to_load@[j] == q)
                    implies self.resident(q) by {
                    if !m1.resident(q) {
                        let j = choose|j: int| 0 <= j < k as int + 1 && to_load@[j] == q;
                        if j < k as int {
                            assert(prev.resident(q));
                        }
                    }
                }
            }
            k = k + 1;
        }

        proof {
            assert(radi == old(self).radius());
            assert forall|p: ChunkPos| #[trigger] self.resident(p)
                <==> (within_cheb(p, center, old(self).radius())
                    || (old(self).resident(p)
                        && within_cheb(p, center, old(self).radius() + 1))) by {
                if self.resident(p) && !m1.resident(p) {
                    let j = choose|j: int| 0 <= j < n_load as int && to_load@[j] == p;
                    assert(to_load@.contains(p));
                }
                if !m0.resident(p) && within_cheb(p, center, radi) {
                    assert(to_load@.contains(p));
                    let j = choose|j: int| 0 <= j < to_load@.len() && to_load@[j] == p;
                    assert(self.resident(to_load@[j]));
                }
            }
            assert forall|p: ChunkPos| within_cheb(p, center, old(self).radius())
                && !old(self).resident(p)
                implies fresh_chunk(#[trigger] self.spec_chunk(p), p) by {
                assert(to_load@.contains(p));
                let j = choose|j: int| 0 <= j < to_load@.len() && to_load@[j] == p;
                assert(fresh_chunk(self.spec_chunk(to_load@[j]), to_load@[j]));
            }
            assert forall|p: ChunkPos| old(self).resident(p)
                && within_cheb(p, center, old(self).radius() + 1)
                implies #[trigger] self.spec_chunk(p) == old(self).spec_chunk(p) by {
                assert(m1.resident(p));
                assert(self.spec_chunk(p) == m1.spec_chunk(p));
            }
            if m0.spec_cnt() == 0 {
                let s1 = 2 * radi + 1;
                assert(to_load@.len() == (radi + 1 + radi) * (s1 * s1));
                assert(radi + 1 + radi == s1);
                assert(s1 * (s1 * s1) == s1 * s1 * s1) by (nonlinear_arith);
                assert((radi + 1 + radi) * (s1 * s1) == s1 * (s1 * s1));
                assert(self.spec_cnt() == to_load@.len());
            }
        }
        to_load
    }
}

} // verus!
