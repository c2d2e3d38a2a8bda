//! The voxel world: its dimensions, its generation mode, and the terrain
//! rules that decide which block stands at a position.
//!
//! Normal terrain rests on noise fields sampled in floating point; those
//! samples (column heights, the surface-layer height limits, and whether
//! a cave carves the position) come in as a `TerrainSample`. Everything
//! decided from them (layers, caves, glowstone, trees and their canopies)
//! is decided here, on integers.
use vstd::prelude::*;
use crate::types::{Block, BlockId};
use crate::registry::BlockRegistry;

verus! {

#[derive(Clone, Copy, Debug, PartialEq, Eq, Structural)]
pub enum WorldGenMode {
    /// Noise terrain with caves and trees.
    Normal,
    /// An infinite flat slab of stone of the given thickness from y = 0 upwards.
    Flat { thickness: i32 },
}

pub struct World {
    pub chunk_size_x: usize,
    pub chunk_size_y: usize,
    pub chunk_size_z: usize,
    pub chunks_x: usize,
    pub chunks_z: usize,
    pub seed: i32,
    pub mode: WorldGenMode,
}

/// Tree species of the generated forests.
#[derive(Clone, Copy, Debug, PartialEq, Eq, Structural)]
pub enum Species {
    Oak,
    Birch,
    Spruce,
    Jungle,
    Acacia,
    DarkOak,
}

pub open spec fn log_name(sp: Species) -> Seq<char> {
    match sp {
        Species::Oak => "oak_log"@,
        Species::Birch => "birch_log"@,
        Species::Spruce => "spruce_log"@,
        Species::Jungle => "jungle_log"@,
        Species::Acacia => "acacia_log"@,
        Species::DarkOak => "dark_oak_log"@,
    }
}

/// Leaves of a species; dark oak grows oak leaves.
pub open spec fn leaves_name(sp: Species) -> Seq<char> {
    match sp {
        Species::Oak => "oak_leaves"@,
        Species::Birch => "birch_leaves"@,
        Species::Spruce => "spruce_leaves"@,
        Species::Jungle => "jungle_leaves"@,
        Species::Acacia => "acacia_leaves"@,
        Species::DarkOak => "oak_leaves"@,
    }
}

fn log_of(sp: Species) -> (r: &'static str)
    ensures
        r@ == log_name(sp),
{
    match sp {
        Species::Oak => "oak_log",
        Species::Birch => "birch_log",
        Species::Spruce => "spruce_log",
        Species::Jungle => "jungle_log",
        Species::Acacia => "acacia_log",
        Species::DarkOak => "dark_oak_log",
    }
}

fn leaves_of(sp: Species) -> (r: &'static str)
    ensures
        r@ == leaves_name(sp),
{
    match sp {
        Species::Oak => "oak_leaves",
        Species::Birch => "birch_leaves",
        Species::Spruce => "spruce_leaves",
        Species::Jungle => "jungle_leaves",
        Species::Acacia => "acacia_leaves",
        Species::DarkOak => "oak_leaves",
    }
}

/// `a * c` kept to 32 bits.
pub open spec fn mul32(a: u32, c: u32) -> u32 {
    ((a as nat * c as nat) % 0x1_0000_0000nat) as u32
}

/// `a + c` kept to 32 bits.
pub open spec fn add32(a: u32, c: u32) -> u32 {
    if a + c > u32::MAX {
        (a + c - 0x1_0000_0000) as u32
    } else {
        (a + c) as u32
    }
}

/// An integer hash that mixes all 32 bits.
#[verifier::opaque]
pub open spec fn uhash32(a: u32) -> u32 {
    let a1 = a ^ (a >> 16u32);
    let a2 = mul32(a1, 0x7feb_352d);
    let a3 = a2 ^ (a2 >> 15u32);
    let a4 = mul32(a3, 0x846c_a68b);
    a4 ^ (a4 >> 16u32)
}

/// A hash of a column and a seed.
#[verifier::opaque]
pub open spec fn hash2(ix: i32, iz: i32, seed: u32) -> u32 {
    let h0 = mul32(ix as u32, 0x85eb_ca6b) ^ mul32(iz as u32, 0xc2b2_ae35) ^ mul32(seed, 0x27d4_eb2d);
    let h1 = h0 ^ (h0 >> 16u32);
    let h2 = mul32(h1, 0x7feb_352d);
    let h3 = h2 ^ (h2 >> 15u32);
    let h4 = mul32(h3, 0x846c_a68b);
    h4 ^ (h4 >> 16u32)
}

/// Computes `uhash32`.
pub fn uhash32_exec(a: u32) -> (r: u32)
    ensures
        r == uhash32(a),
{
    reveal(uhash32);
    let a1 = a ^ (a >> 16u32);
    let a2 = a1.wrapping_mul(0x7feb_352d);
    let a3 = a2 ^ (a2 >> 15u32);
    let a4 = a3.wrapping_mul(0x846c_a68b);
    a4 ^ (a4 >> 16u32)
}

fn hash2_exec(ix: i32, iz: i32, seed: u32) -> (r: u32)
    ensures
        r == hash2(ix, iz, seed),
{
    reveal(hash2);
    let h0 = (ix as u32).wrapping_mul(0x85eb_ca6b) ^ (iz as u32).wrapping_mul(0xc2b2_ae35) ^ seed.wrapping_mul(0x27d4_eb2d);
    let h1 = h0 ^ (h0 >> 16u32);
    let h2 = h1.wrapping_mul(0x7feb_352d);
    let h3 = h2 ^ (h2 >> 15u32);
    let h4 = h3.wrapping_mul(0x846c_a68b);
    h4 ^ (h4 >> 16u32)
}

/// A column's 24-bit random fraction for a salt (numerator over 2^24).
pub open spec fn rand24(seed: i32, ix: i32, iz: i32, salt: u32) -> u32 {
    hash2(ix, iz, add32((seed as u32) ^ salt, 0x9E37_79B9)) & 0x00FF_FFFF
}

fn rand24_exec(seed: i32, ix: i32, iz: i32, salt: u32) -> (r: u32)
    ensures
        r == rand24(seed, ix, iz, salt),
{
    hash2_exec(ix, iz, ((seed as u32) ^ salt).wrapping_add(0x9E37_79B9)) & 0x00FF_FFFF
}

/// The hash that decides whether a cave spot near rock glows.
pub open spec fn glow_hash(seed: i32, x: i32, y: i32, z: i32) -> u32 {
    let a0 = ((seed as u32) ^ 0xC0FF_EE15u32) ^ 0x9e37_79b9u32;
    let a1 = a0 ^ uhash32(x as u32);
    let a2 = a1 ^ uhash32(y as u32);
    a2 ^ uhash32(z as u32)
}

fn glow_hash_exec(seed: i32, x: i32, y: i32, z: i32) -> (r: u32)
    ensures
        r == glow_hash(seed, x, y, z),
{
    let a0 = ((seed as u32) ^ 0xC0FF_EE15u32) ^ 0x9e37_79b9u32;
    let a1 = a0 ^ uhash32_exec(x as u32);
    let a2 = a1 ^ uhash32_exec(y as u32);
    a2 ^ uhash32_exec(z as u32)
}

/// A tree grows on a column whose fraction is below 2% of 2^24 (rounded
/// as the 32-bit float 0.02 scaled by 2^24 rounds).
pub const TREE_CUT: u32 = 335545;

/// A carved spot near rock glows when its fraction is below 0.09% of 2^24.
pub const GLOW_CUT: u32 = 15100;

/// The species of a tree at a column, from two climate fractions
/// (temperature `t`, moisture `m`): cold and wet grows spruce, hot and wet
/// jungle, hot and dry acacia, warm and very dry dark oak; elsewhere one
/// hash bit picks birch or oak.
pub open spec fn species_at(seed: i32, tx: i32, tz: i32) -> Species {
    let t = rand24(seed, tx, tz, 0xBEEF01);
    let m = rand24(seed, tx, tz, 0xC0FFEE);
    if t <= 3690987 && m > 10905190 {
        Species::Spruce
    } else if t > 13086228 && m > 7549747 {
        Species::Jungle
    } else if t > 12582912 && m < 5368709 {
        Species::Acacia
    } else if t > 10905190 && m < 4194304 {
        Species::DarkOak
    } else if (hash2(tx, tz, 0xDEAD_BEEF) >> 20u32) & 1 == 1 {
        Species::Birch
    } else {
        Species::Oak
    }
}

fn species_exec(seed: i32, tx: i32, tz: i32) -> (r: Species)
    ensures
        r == species_at(seed, tx, tz),
{
    let t = rand24_exec(seed, tx, tz, 0xBEEF01);
    let m = rand24_exec(seed, tx, tz, 0xC0FFEE);
    if t <= 3690987 && m > 10905190 {
        Species::Spruce
    } else if t > 13086228 && m > 7549747 {
        Species::Jungle
    } else if t > 12582912 && m < 5368709 {
        Species::Acacia
    } else if t > 10905190 && m < 4194304 {
        Species::DarkOak
    } else if (hash2_exec(tx, tz, 0xDEAD_BEEF) >> 20u32) & 1 == 1 {
        Species::Birch
    } else {
        Species::Oak
    }
}

/// Top block of a column whose top is at height `v`: snow from
/// `snow_from` up, sand up to `sand_to`, grass in between.
pub open spec fn surface_kind(v: int, snow_from: int, sand_to: int) -> Seq<char> {
    if v >= snow_from {
        "snow"@
    } else if v <= sand_to {
        "sand"@
    } else {
        "grass"@
    }
}

fn surface_exec(v: i64, snow_from: i32, sand_to: i32) -> (r: &'static str)
    ensures
        r@ == surface_kind(v as int, snow_from as int, sand_to as int),
{
    if v >= snow_from as i64 {
        "snow"
    } else if v <= sand_to as i64 {
        "sand"
    } else {
        "grass"
    }
}

/// Noise samples the terrain rules read around one position.
pub struct TerrainSample {
    /// Terrain heights of the 5 by 5 columns around the position: column
    /// `(x - 2 + k / 5, z - 2 + k % 5)` at `k`; the position's own column at 12.
    pub heights: Vec<i32>,
    /// Column tops at or above this height are snow.
    pub snow_from: i32,
    /// Column tops at or below this height are sand.
    pub sand_to: i32,
    /// A tunnel or a cave room passes through the position.
    pub carved: bool,
    /// A face neighbor of the position is rock that no cave carves.
    pub near_solid: bool,
}

/// Absolute value.
pub open spec fn iabs(v: int) -> int {
    if v < 0 { -v } else { v }
}

impl World {
    pub fn new(
        chunks_x: usize,
        chunks_z: usize,
        chunk_size_x: usize,
        chunk_size_y: usize,
        chunk_size_z: usize,
        seed: i32,
        mode: WorldGenMode,
    ) -> (w: World)
        ensures
            w.chunks_x == chunks_x && w.chunks_z == chunks_z,
            w.chunk_size_x == chunk_size_x && w.chunk_size_y == chunk_size_y && w.chunk_size_z == chunk_size_z,
            w.seed == seed && w.mode == mode,
    {
        World { chunk_size_x, chunk_size_y, chunk_size_z, chunks_x, chunks_z, seed, mode }
    }

    pub fn world_size_x(&self) -> (r: usize)
        requires
            self.chunk_size_x * self.chunks_x <= usize::MAX,
        ensures
            r == self.chunk_size_x * self.chunks_x,
    {
        self.chunk_size_x * self.chunks_x
    }

    pub fn world_size_y(&self) -> (r: usize)
        ensures
            r == self.chunk_size_y,
    {
        self.chunk_size_y
    }

    pub fn world_size_z(&self) -> (r: usize)
        requires
            self.chunk_size_z * self.chunks_z <= usize::MAX,
        ensures
            r == self.chunk_size_z * self.chunks_z,
    {
        self.chunk_size_z * self.chunks_z
    }

    pub fn is_flat(&self) -> (r: bool)
        ensures
            r == (self.mode is Flat),
    {
        match self.mode {
            WorldGenMode::Flat { .. } => true,
            WorldGenMode::Normal => false,
        }
    }

    /// A tree rooted on column `(tx, tz)` whose terrain height is `h`: its
    /// surface block height, trunk height and species. Trees grow on grass
    /// columns that pass the tree fraction and leave room above and below.
    pub open spec fn trunk_at(&self, tx: i32, tz: i32, h: int, snow_from: int, sand_to: int) -> Option<(int, int, Species)> {
        let surf = h - 1;
        if surface_kind(surf, snow_from, sand_to) != "grass"@ {
            None
        } else if rand24(self.seed, tx, tz, 0xA53F9) >= TREE_CUT {
            None
        } else if surf <= 2 || surf >= (self.chunk_size_y as i32) - 6 {
            None
        } else {
            Some((surf, 4 + (hash2(tx, tz, 0x51F0_A7) % 3) as int, species_at(self.seed, tx, tz)))
        }
    }

    /// Whether a canopy of the tree `t` on column `(tx, tz)` covers `(x, y, z)`:
    /// within two blocks of the trunk top in height, in a diamond of radius
    /// two (one at the top and bottom layers, one more below the top),
    /// never on or above the trunk's own column.
    pub open spec fn in_canopy(x: int, y: int, z: int, tx: int, tz: int, t: Option<(int, int, Species)>) -> bool {
        match t {
            None => false,
            Some((surf, th, _)) => {
                let dy = y - (surf + th);
                let rad: int = if dy <= -2 || dy >= 2 { 1 } else { 2 };
                let extra: int = if dy >= 1 { 0 } else { 1 };
                &&& -2 <= dy <= 2
                &&& !(x == tx && z == tz && dy >= 0)
                &&& iabs(x - tx) + iabs(z - tz) <= rad + extra
            },
        }
    }

    /// The species of the first tree, scanning columns `k..25` of the sample
    /// grid in order, whose canopy covers `(x, y, z)`.
    pub open spec fn canopy_scan(&self, x: i32, y: i32, z: i32, s: TerrainSample, k: int) -> Option<Species>
        decreases 25 - k,
    {
        if k < 0 || k >= 25 {
            None
        } else {
            let tx = x - 2 + k / 5;
            let tz = z - 2 + k % 5;
            let t = self.trunk_at(tx as i32, tz as i32, s.heights@[k] as int, s.snow_from as int, s.sand_to as int);
            if Self::in_canopy(x as int, y as int, z as int, tx, tz, t) {
                match t {
                    Some((_, _, sp)) => Some(sp),
                    None => None,
                }
            } else {
                self.canopy_scan(x, y, z, s, k + 1)
            }
        }
    }

    /// The block name the terrain rules give `(x, y, z)`:
    /// - air above the column, its surface block on top, dirt down to three
    ///   below the top, stone further down;
    /// - rock (not grass) at least four below the top and above y = 2 that a
    ///   cave carves becomes air, or glowstone when next to rock, more than
    ///   two below the top, and its glow fraction is small;
    /// - a tree's trunk replaces what its column holds above the surface;
    /// - air under a canopy becomes that species' leaves.
    pub open spec fn terrain_name(&self, x: i32, y: i32, z: i32, s: TerrainSample) -> Seq<char> {
        let h = s.heights@[12] as int;
        let yy = y as int;
        let base = if yy >= h {
            "air"@
        } else if yy == h - 1 {
            surface_kind(h, s.snow_from as int, s.sand_to as int)
        } else if yy + 3 >= h {
            "dirt"@
        } else {
            "stone"@
        };
        let caved = if base != "air"@ && base != "grass"@ && h - yy >= 4 && yy >= 3 && s.carved {
            if s.near_solid && yy < h - 2 && (glow_hash(self.seed, x, y, z) & 0x00FF_FFFF) < GLOW_CUT {
                "glowstone"@
            } else {
                "air"@
            }
        } else {
            base
        };
        let trunked = match self.trunk_at(x, z, h, s.snow_from as int, s.sand_to as int) {
            Some((surf, th, sp)) => if surf + 1 <= yy <= surf + th { log_name(sp) } else { caved },
            None => caved,
        };
        if trunked == "air"@ {
            match self.canopy_scan(x, y, z, s, 0) {
                Some(sp) => leaves_name(sp),
                None => "air"@,
            }
        } else {
            trunked
        }
    }

    /// The sample holds what the terrain rules read: 25 column heights
    /// within the world's height, around a position whose neighborhood
    /// stays within `i32`.
    pub open spec fn sample_ok(&self, x: i32, z: i32, s: TerrainSample) -> bool {
        &&& self.chunk_size_y <= i32::MAX
        &&& i32::MIN + 2 <= x <= i32::MAX - 2
        &&& i32::MIN + 2 <= z <= i32::MAX - 2
        &&& self.sample_fits(s)
    }

    /// 25 column heights, each within the world's height.
    pub open spec fn sample_fits(&self, s: TerrainSample) -> bool {
        &&& s.heights@.len() == 25
        &&& forall|k: int| 0 <= k < 25 ==> 1 <= #[trigger] s.heights@[k] < self.chunk_size_y
    }

    fn trunk_exec(&self, tx: i32, tz: i32, h: i32, snow_from: i32, sand_to: i32) -> (r: Option<(i64, i64, Species)>)
        requires
            self.chunk_size_y <= i32::MAX,
            1 <= h,
        ensures
            match r {
                Some((a, b, c)) => self.trunk_at(tx, tz, h as int, snow_from as int, sand_to as int) == Some((a as int, b as int, c)),
                None => self.trunk_at(tx, tz, h as int, snow_from as int, sand_to as int) is None,
            },
    {
        let surf: i64 = h as i64 - 1;
        proof {
            reveal_strlit("grass");
            reveal_strlit("snow");
            reveal_strlit("sand");
        }
        if surf >= snow_from as i64 || surf <= sand_to as i64 {
            assert("snow"@ != "grass"@ && "sand"@ != "grass"@) by {
                assert("snow"@.len() != "grass"@.len());
                assert("sand"@.len() != "grass"@.len());
            }
            assert(surface_kind(surf as int, snow_from as int, sand_to as int) != "grass"@);
            return None;
        }
        if rand24_exec(self.seed, tx, tz, 0xA53F9) >= TREE_CUT {
            return None;
        }
        let th: i64 = 4 + (hash2_exec(tx, tz, 0x51F0_A7) % 3) as i64;
        if surf <= 2 || surf >= (self.chunk_size_y as i32) as i64 - 6 {
            return None;
        }
        Some((surf, th, species_exec(self.seed, tx, tz)))
    }
}

/// The block names the terrain rules tell apart are different names.
proof fn lemma_names_distinct()
    ensures
        "air"@ != "grass"@ && "dirt"@ != "grass"@ && "stone"@ != "grass"@ && "snow"@ != "grass"@ && "sand"@ != "grass"@,
        "dirt"@ != "air"@ && "stone"@ != "air"@ && "snow"@ != "air"@ && "sand"@ != "air"@ && "grass"@ != "air"@,
        "glowstone"@ != "air"@,
        forall|sp: Species| #[trigger] log_name(sp) != "air"@,
{
    reveal_strlit("air");
    reveal_strlit("grass");
    reveal_strlit("dirt");
    reveal_strlit("stone");
    reveal_strlit("snow");
    reveal_strlit("sand");
    reveal_strlit("glowstone");
    reveal_strlit("oak_log");
    reveal_strlit("birch_log");
    reveal_strlit("spruce_log");
    reveal_strlit("jungle_log");
    reveal_strlit("acacia_log");
    reveal_strlit("dark_oak_log");
    assert("stone"@[0] != "grass"@[0]);
    assert("air"@.len() == 3 && "dirt"@.len() == 4 && "stone"@.len() == 5 && "snow"@.len() == 4);
    assert("sand"@.len() == 4 && "grass"@.len() == 5 && "glowstone"@.len() == 9);
    assert forall|sp: Species| #[trigger] log_name(sp) != "air"@ by {
        assert(log_name(sp).len() != "air"@.len());
    }
}

/// The id of a block name, 0 when the registry lacks it.
pub open spec fn named_id(reg: BlockRegistry, name: Seq<char>) -> BlockId {
    match reg.spec_id_by_name(name) {
        Some(id) => id,
        None => 0,
    }
}

/// The id of a block name, else that of air, else 0.
pub open spec fn named_or_air(reg: BlockRegistry, name: Seq<char>) -> BlockId {
    match reg.spec_id_by_name(name) {
        Some(id) => id,
        None => named_id(reg, "air"@),
    }
}

impl World {
    /// The block at a position when no noise is needed: air outside the
    /// world's height, the slab of a flat world; `None` for a position of
    /// normal terrain.
    pub open spec fn spec_block_quick(&self, reg: BlockRegistry, x: i32, y: i32, z: i32) -> Option<Block> {
        if y < 0 || y >= self.chunk_size_y as i32 {
            Some(Block { id: named_id(reg, "air"@), state: 0 })
        } else {
            match self.mode {
                WorldGenMode::Flat { thickness } => Some(Block {
                    id: named_id(reg, if y < thickness { "stone"@ } else { "air"@ }),
                    state: 0,
                }),
                WorldGenMode::Normal => None,
            }
        }
    }

    /// The generated block at a position that needs no noise samples;
    /// `None` for normal terrain inside the world's height, which
    /// `block_at_runtime_with` builds from samples.
    pub fn block_at_runtime(&self, reg: &BlockRegistry, x: i32, y: i32, z: i32) -> (r: Option<Block>)
        ensures
            r == self.spec_block_quick(*reg, x, y, z),
    {
        if y < 0 || y >= self.chunk_size_y as i32 {
            let id = match reg.id_by_name("air") {
                Some(id) => id,
                None => 0,
            };
            return Some(Block { id, state: 0 });
        }
        match self.mode {
            WorldGenMode::Flat { thickness } => {
                let name = if y < thickness { "stone" } else { "air" };
                let id = match reg.id_by_name(name) {
                    Some(id) => id,
                    None => 0,
                };
                Some(Block { id, state: 0 })
            },
            WorldGenMode::Normal => None,
        }
    }

    fn canopy_exec(&self, x: i32, y: i32, z: i32, s: &TerrainSample) -> (r: Option<Species>)
        requires
            self.sample_ok(x, z, *s),
            0 <= y,
        ensures
            r == self.canopy_scan(x, y, z, *s, 0),
    {
        let mut k: usize = 0;
        while k < 25
            invariant
                self.sample_ok(x, z, *s),
                0 <= y,
                k <= 25,
                self.canopy_scan(x, y, z, *s, k as int) == self.canopy_scan(x, y, z, *s, 0),
            decreases 25 - k,
        {
            let tx: i32 = x - 2 + (k / 5) as i32;
            let tz: i32 = z - 2 + (k % 5) as i32;
            let t = self.trunk_exec(tx, tz, s.heights[k], s.snow_from, s.sand_to);
            match t {
                Some((surf, th, sp)) => {
                    assert(surf < i32::MAX && 4 <= th <= 6);
                    let dy: i64 = y as i64 - (surf + th);
                    if -2 <= dy && dy <= 2 {
                        let rad: i64 = if dy <= -2 || dy >= 2 { 1 } else { 2 };
                        let dx: i64 = x as i64 - tx as i64;
                        let dz: i64 = z as i64 - tz as i64;
                        if !(dx == 0 && dz == 0 && dy >= 0) {
                            let adx: i64 = if dx < 0 { -dx } else { dx };
                            let adz: i64 = if dz < 0 { -dz } else { dz };
                            let extra: i64 = if dy >= 1 { 0 } else { 1 };
                            if adx + adz <= rad + extra {
                                return Some(sp);
                            }
                        }
                    }
                },
                None => {},
            }
            k = k + 1;
        }
        None
    }

    fn terrain_name_exec(&self, x: i32, y: i32, z: i32, s: &TerrainSample) -> (r: &'static str)
        requires
            self.sample_ok(x, z, *s),
            0 <= y < self.chunk_size_y,
        ensures
            r@ == self.terrain_name(x, y, z, *s),
    {
        proof {
            lemma_names_distinct();
        }
        let h: i64 = s.heights[12] as i64;
        let yy: i64 = y as i64;
        let grass_top = !(h >= s.snow_from as i64) && !(h <= s.sand_to as i64);
        let base: &'static str = if yy >= h {
            "air"
        } else if yy == h - 1 {
            surface_exec(h, s.snow_from, s.sand_to)
        } else if yy + 3 >= h {
            "dirt"
        } else {
            "stone"
        };
        let rocky = yy < h && !(yy == h - 1 && grass_top);
        assert(rocky == (base@ != "air"@ && base@ != "grass"@));
        let mut caved_air = false;
        let mut name: &'static str = base;
        if rocky && h - yy >= 4 && yy >= 3 && s.carved {
            if s.near_solid && yy < h - 2 && (glow_hash_exec(self.seed, x, y, z) & 0x00FF_FFFF) < GLOW_CUT {
                name = "glowstone";
            } else {
                name = "air";
                caved_air = true;
            }
        }
        let is_air = (yy >= h && !(rocky && h - yy >= 4 && yy >= 3 && s.carved)) || caved_air;
        assert(is_air == (name@ == "air"@));
        let mut trunked = name;
        let mut trunked_air = is_air;
        match self.trunk_exec(x, z, s.heights[12], s.snow_from, s.sand_to) {
            Some((surf, th, sp)) => {
                if surf + 1 <= yy && yy <= surf + th {
                    trunked = log_of(sp);
                    trunked_air = false;
                }
            },
            None => {},
        }
        assert(trunked_air == (trunked@ == "air"@));
        if trunked_air {
            match self.canopy_exec(x, y, z, s) {
                Some(sp) => leaves_of(sp),
                None => "air",
            }
        } else {
            trunked
        }
    }

    /// The generated block at a position: as `block_at_runtime` where no
    /// noise is needed, else the terrain rules applied to `sample`, named
    /// block looked up in the registry (falling back to air, then id 0).
    pub fn block_at_runtime_with(&self, reg: &BlockRegistry, x: i32, y: i32, z: i32, sample: &TerrainSample) -> (r: Block)
        requires
            (self.mode is Normal && 0 <= y < self.chunk_size_y as i32) ==> self.sample_ok(x, z, *sample),
        ensures
            r == match self.spec_block_quick(*reg, x, y, z) {
                Some(b) => b,
                None => Block { id: named_or_air(*reg, self.terrain_name(x, y, z, *sample)), state: 0 },
            },
    {
        match self.block_at_runtime(reg, x, y, z) {
            Some(b) => b,
            None => {
                let name = self.terrain_name_exec(x, y, z, sample);
                let id = match reg.id_by_name(name) {
                    Some(id) => id,
                    None => match reg.id_by_name("air") {
                        Some(id) => id,
                        None => 0,
                    },
                };
                Block { id, state: 0 }
            },
        }
    }
}


/// Log and leaves names never coincide: logs end in `g`, leaves in `s`.
proof fn lemma_log_not_leaves()
    ensures
        forall|a: Species, b: Species| #[trigger] log_name(a) != #[trigger] leaves_name(b),
{
    reveal_strlit("oak_log");
    reveal_strlit("birch_log");
    reveal_strlit("spruce_log");
    reveal_strlit("jungle_log");
    reveal_strlit("acacia_log");
    reveal_strlit("dark_oak_log");
    reveal_strlit("oak_leaves");
    reveal_strlit("birch_leaves");
    reveal_strlit("spruce_leaves");
    reveal_strlit("jungle_leaves");
    reveal_strlit("acacia_leaves");
    assert forall|a: Species, b: Species| #[trigger] log_name(a) != #[trigger] leaves_name(b) by {
        let l = log_name(a);
        let v = leaves_name(b);
        assert(l[l.len() - 1] == 'g');
        assert(v[v.len() - 1] == 's');
    }
}

impl World {
    /// Trees grow on grass only: above a column whose top (one below its
    /// terrain height) is snow or sand, every position holds air or the
    /// leaves of a neighboring tree's canopy, never a trunk.
    pub proof fn lemma_no_trunk_off_grass(&self, x: i32, y: i32, z: i32, s: TerrainSample)
        requires
            s.heights@.len() == 25,
            s.heights@[12] - 1 >= s.snow_from || s.heights@[12] - 1 <= s.sand_to,
            y >= s.heights@[12],
        ensures
            self.terrain_name(x, y, z, s) == "air"@
                || exists|sp: Species| self.terrain_name(x, y, z, s) == #[trigger] leaves_name(sp),
            forall|sp: Species| self.terrain_name(x, y, z, s) != #[trigger] log_name(sp),
    {
        lemma_names_distinct();
        lemma_log_not_leaves();
        reveal_strlit("air");
        assert(self.trunk_at(x, z, s.heights@[12] as int, s.snow_from as int, s.sand_to as int) is None);
        match self.canopy_scan(x, y, z, s, 0) {
            Some(sp) => {
                assert(self.terrain_name(x, y, z, s) == leaves_name(sp));
            },
            None => {},
        }
    }
}

} // verus!
