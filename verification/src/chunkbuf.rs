//! A chunk's blocks as a dense `sx * sy * sz` buffer with a chunk-grid origin.
use vstd::prelude::*;
use crate::types::Block;
use crate::registry::BlockRegistry;
use crate::world::{World, WorldGenMode, TerrainSample, named_or_air};
use crate::grid::{grid_idx, in_grid, lemma_grid_idx_bounds, lemma_grid_size_parts, lemma_grid_idx_inj};

verus! {

pub struct ChunkBuf {
    pub cx: i32,
    pub cz: i32,
    pub sx: usize,
    pub sy: usize,
    pub sz: usize,
    pub blocks: Vec<Block>,
}

impl ChunkBuf {
    /// The buffer holds exactly one block per cell.
    pub open spec fn wf(&self) -> bool {
        self.blocks@.len() == self.sx * self.sy * self.sz
    }

    /// World-space origin and extent of the chunk fit in `i32`.
    pub open spec fn world_fits(&self) -> bool {
        &&& self.sx <= i32::MAX
        &&& self.sy <= i32::MAX
        &&& self.sz <= i32::MAX
        &&& i32::MIN <= self.cx * self.sx
        &&& self.cx * self.sx + self.sx <= i32::MAX
        &&& i32::MIN <= self.cz * self.sz
        &&& self.cz * self.sz + self.sz <= i32::MAX
    }

    pub open spec fn x0(&self) -> int {
        self.cx * self.sx
    }

    pub open spec fn z0(&self) -> int {
        self.cz * self.sz
    }

    pub open spec fn spec_local(&self, x: int, y: int, z: int) -> Block {
        self.blocks@[grid_idx(self.sx as int, self.sz as int, x, y, z)]
    }

    pub open spec fn spec_contains_world(&self, wx: int, wy: int, wz: int) -> bool {
        &&& 0 <= wy < self.sy
        &&& self.x0() <= wx < self.x0() + self.sx
        &&& self.z0() <= wz < self.z0() + self.sz
    }

    /// Index of a local cell: `(y * sz + z) * sx + x`.
    pub fn idx(&self, x: usize, y: usize, z: usize) -> (i: usize)
        requires
            y * self.sz + z <= usize::MAX,
            (y * self.sz + z) * self.sx + x <= usize::MAX,
        ensures
            i == grid_idx(self.sx as int, self.sz as int, x as int, y as int, z as int),
    {
        (y * self.sz + z) * self.sx + x
    }

    pub fn get_local(&self, x: usize, y: usize, z: usize) -> (b: Block)
        requires
            self.wf(),
            in_grid(self.sx as int, self.sy as int, self.sz as int, x as int, y as int, z as int),
        ensures
            b == self.spec_local(x as int, y as int, z as int),
    {
        proof {
            lemma_grid_idx_bounds(self.sx as int, self.sy as int, self.sz as int, x as int, y as int, z as int);
        }
        let n = self.blocks.len();
        assert(n == self.sx * self.sy * self.sz);
        self.blocks[self.idx(x, y, z)]
    }

    /// Whether a world position lies inside this chunk's column.
    pub fn contains_world(&self, wx: i32, wy: i32, wz: i32) -> (r: bool)
        requires
            self.world_fits(),
        ensures
            r == self.spec_contains_world(wx as int, wy as int, wz as int),
    {
        if wy < 0 || wy >= self.sy as i32 {
            return false;
        }
        let x0 = self.cx * self.sx as i32;
        let z0 = self.cz * self.sz as i32;
        wx >= x0 && wx < x0 + self.sx as i32 && wz >= z0 && wz < z0 + self.sz as i32
    }

    /// Block at a world position, or `None` when it lies outside the chunk.
    pub fn get_world(&self, wx: i32, wy: i32, wz: i32) -> (r: Option<Block>)
        requires
            self.wf(),
            self.world_fits(),
        ensures
            r is Some <==> self.spec_contains_world(wx as int, wy as int, wz as int),
            r is Some ==> r->0 == self.spec_local(wx - self.x0(), wy as int, wz - self.z0()),
    {
        if !self.contains_world(wx, wy, wz) {
            return None;
        }
        if wy < 0 || wy >= self.sy as i32 {
            return Some(Block::air());
        }
        let x0 = self.cx * self.sx as i32;
        let z0 = self.cz * self.sz as i32;
        let lx = (wx - x0) as usize;
        let lz = (wz - z0) as usize;
        Some(self.get_local(lx, wy as usize, lz))
    }

    /// Builds a buffer from local blocks, truncating or padding with air to
    /// exactly `sx * sy * sz` cells.
    pub fn from_blocks_local(cx: i32, cz: i32, sx: usize, sy: usize, sz: usize, blocks: Vec<Block>) -> (r: ChunkBuf)
        requires
            sx * sy <= usize::MAX,
            sx * sy * sz <= usize::MAX,
        ensures
            r.wf(),
            r.cx == cx && r.cz == cz && r.sx == sx && r.sy == sy && r.sz == sz,
            forall|i: int| 0 <= i < r.blocks@.len() ==> #[trigger] r.blocks@[i] == (if i < blocks@.len() {
                blocks@[i]
            } else {
                Block { id: 0, state: 0 }
            }),
    {
        let mut b = blocks;
        proof {
            lemma_grid_size_parts(sx as int, sy as int, sz as int);
        }
        let expect = sx * sy * sz;
        if b.len() != expect {
            b.resize(expect, Block { id: 0, state: 0 });
        }
        ChunkBuf { cx, cz, sx, sy, sz, blocks: b }
    }
}

/// Block `b` is what `world` generates at `(wx, wy, wz)`: directly where no
/// noise is needed, else from some sample `sample_at` gives for the position.
pub open spec fn generated<F: Fn(i32, i32, i32) -> TerrainSample>(world: World, reg: BlockRegistry, wx: i32, wy: i32, wz: i32, b: Block, sample_at: F) -> bool {
    match world.spec_block_quick(reg, wx, wy, wz) {
        Some(q) => b == q,
        None => exists|s: TerrainSample| sample_at.ensures((wx, wy, wz), s)
            && b == (Block { id: named_or_air(reg, world.terrain_name(wx, wy, wz, s)), state: 0 }),
    }
}

/// Generates chunk `(cx, cz)`: every cell gets the block the world
/// generates at its world position, with noise samples from `sample_at`.
pub fn generate_chunk_buffer<F: Fn(i32, i32, i32) -> TerrainSample>(world: &World, cx: i32, cz: i32, reg: &BlockRegistry, sample_at: F) -> (r: ChunkBuf)
    requires
        world.chunk_size_x <= i32::MAX && world.chunk_size_y <= i32::MAX && world.chunk_size_z <= i32::MAX,
        world.chunk_size_x * world.chunk_size_y <= usize::MAX,
        world.chunk_size_x * world.chunk_size_y * world.chunk_size_z <= usize::MAX,
        i32::MIN + 2 <= cx * world.chunk_size_x,
        cx * world.chunk_size_x + world.chunk_size_x <= i32::MAX - 2,
        i32::MIN + 2 <= cz * world.chunk_size_z,
        cz * world.chunk_size_z + world.chunk_size_z <= i32::MAX - 2,
        forall|wx: i32, wy: i32, wz: i32| sample_at.requires((wx, wy, wz)),
        forall|wx: i32, wy: i32, wz: i32, s: TerrainSample| sample_at.ensures((wx, wy, wz), s) ==> world.sample_fits(s),
    ensures
        r.cx == cx && r.cz == cz,
        r.sx == world.chunk_size_x && r.sy == world.chunk_size_y && r.sz == world.chunk_size_z,
        r.wf(),
        forall|x: int, y: int, z: int| 0 <= x < r.sx && 0 <= y < r.sy && 0 <= z < r.sz ==>
            generated(*world, *reg, (r.x0() + x) as i32, y as i32, (r.z0() + z) as i32, #[trigger] r.spec_local(x, y, z), sample_at),
{
    let sx = world.chunk_size_x;
    let sy = world.chunk_size_y;
    let sz = world.chunk_size_z;
    let total = sx * sy * sz;
    let mut blocks: Vec<Block> = Vec::new();
    let mut i: usize = 0;
    while i < total
        invariant
            i <= total,
            blocks@.len() == i,
        decreases total - i,
    {
        blocks.push(Block { id: 0, state: 0 });
        i = i + 1;
    }
    let x0: i32 = cx * sx as i32;
    let z0: i32 = cz * sz as i32;
    let ghost r0 = ChunkBuf { cx, cz, sx, sy, sz, blocks: blocks };
    let mut z: usize = 0;
    while z < sz
        invariant
            sx == world.chunk_size_x && sy == world.chunk_size_y && sz == world.chunk_size_z,
            sx <= i32::MAX && sy <= i32::MAX && sz <= i32::MAX,
            total == sx * sy * sz,
            total <= usize::MAX,
            blocks@.len() == total,
            x0 == cx * sx && z0 == cz * sz,
            i32::MIN + 2 <= x0 && x0 + sx <= i32::MAX - 2,
            i32::MIN + 2 <= z0 && z0 + sz <= i32::MAX - 2,
            z <= sz,
            forall|wx: i32, wy: i32, wz: i32| sample_at.requires((wx, wy, wz)),
            forall|wx: i32, wy: i32, wz: i32, s: TerrainSample| sample_at.ensures((wx, wy, wz), s) ==> world.sample_fits(s),
            forall|a: int, b: int, c: int| 0 <= a < sx && 0 <= b < sy && 0 <= c < z ==>
                generated(*world, *reg, (x0 + a) as i32, b as i32, (z0 + c) as i32, #[trigger] blocks@[grid_idx(sx as int, sz as int, a, b, c)], sample_at),
        decreases sz - z,
    {
        let mut y: usize = 0;
        while y < sy
            invariant
                sx == world.chunk_size_x && sy == world.chunk_size_y && sz == world.chunk_size_z,
                sx <= i32::MAX && sy <= i32::MAX && sz <= i32::MAX,
                total == sx * sy * sz,
                total <= usize::MAX,
                blocks@.len() == total,
                x0 == cx * sx && z0 == cz * sz,
                i32::MIN + 2 <= x0 && x0 + sx <= i32::MAX - 2,
                i32::MIN + 2 <= z0 && z0 + sz <= i32::MAX - 2,
                z < sz,
                y <= sy,
                forall|wx: i32, wy: i32, wz: i32| sample_at.requires((wx, wy, wz)),
                forall|wx: i32, wy: i32, wz: i32, s: TerrainSample| sample_at.ensures((wx, wy, wz), s) ==> world.sample_fits(s),
                forall|a: int, b: int, c: int| 0 <= a < sx && ((0 <= b < sy && 0 <= c < z) || (0 <= b < y && c == z)) ==>
                    generated(*world, *reg, (x0 + a) as i32, b as i32, (z0 + c) as i32, #[trigger] blocks@[grid_idx(sx as int, sz as int, a, b, c)], sample_at),
            decreases sy - y,
        {
            let mut x: usize = 0;
            while x < sx
                invariant
                    sx == world.chunk_size_x && sy == world.chunk_size_y && sz == world.chunk_size_z,
                    sx <= i32::MAX && sy <= i32::MAX && sz <= i32::MAX,
                    total == sx * sy * sz,
                    total <= usize::MAX,
                    blocks@.len() == total,
                    x0 == cx * sx && z0 == cz * sz,
                    i32::MIN + 2 <= x0 && x0 + sx <= i32::MAX - 2,
                    i32::MIN + 2 <= z0 && z0 + sz <= i32::MAX - 2,
                    z < sz,
                    y < sy,
                    x <= sx,
                    forall|wx: i32, wy: i32, wz: i32| sample_at.requires((wx, wy, wz)),
                    forall|wx: i32, wy: i32, wz: i32, s: TerrainSample| sample_at.ensures((wx, wy, wz), s) ==> world.sample_fits(s),
                    forall|a: int, b: int, c: int| ((0 <= a < sx && 0 <= b < sy && 0 <= c < z) || (0 <= a < sx && 0 <= b < y && c == z)
                        || (0 <= a < x && b == y && c == z)) ==>
                        generated(*world, *reg, (x0 + a) as i32, b as i32, (z0 + c) as i32, #[trigger] blocks@[grid_idx(sx as int, sz as int, a, b, c)], sample_at),
                decreases sx - x,
            {
                let wx: i32 = x0 + x as i32;
                let wy: i32 = y as i32;
                let wz: i32 = z0 + z as i32;
                let b = match world.block_at_runtime(reg, wx, wy, wz) {
                    Some(b) => b,
                    None => {
                        let s = sample_at(wx, wy, wz);
                        world.block_at_runtime_with(reg, wx, wy, wz, &s)
                    },
                };
                proof {
                    lemma_grid_idx_bounds(sx as int, sy as int, sz as int, x as int, y as int, z as int);
                }
                let idx = (y * sz + z) * sx + x;
                let ghost before = blocks@;
                blocks.set(idx, b);
                proof {
                    assert forall|a: int, bb: int, c: int| ((0 <= a < sx && 0 <= bb < sy && 0 <= c < z) || (0 <= a < sx && 0 <= bb < y && c == z)
                        || (0 <= a < x + 1 && bb == y && c == z)) implies
                        generated(*world, *reg, (x0 + a) as i32, bb as i32, (z0 + c) as i32, #[trigger] blocks@[grid_idx(sx as int, sz as int, a, bb, c)], sample_at) by {
                        if (a, bb, c) != (x as int, y as int, z as int) {
                            lemma_grid_idx_bounds(sx as int, sy as int, sz as int, a, bb, c);
                            if grid_idx(sx as int, sz as int, a, bb, c) == grid_idx(sx as int, sz as int, x as int, y as int, z as int) {
                                lemma_grid_idx_inj(sx as int, sy as int, sz as int, a, bb, c, x as int, y as int, z as int);
                            }
                            assert(blocks@[grid_idx(sx as int, sz as int, a, bb, c)] == before[grid_idx(sx as int, sz as int, a, bb, c)]);
                        }
                    }
                }
                x = x + 1;
            }
            y = y + 1;
        }
        z = z + 1;
    }
    ChunkBuf { cx, cz, sx, sy, sz, blocks }
}

} // verus!
