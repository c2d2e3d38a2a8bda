//! The chunk mesher's face test: which faces of a chunk's blocks show,
//! and with what material and light. Faces that a neighbor closes are
//! dropped; across the chunk's edge a neighbor counts only when its chunk
//! is loaded.
use vstd::prelude::*;
use crate::types::{Block, MaterialId, Shape};
use crate::registry::BlockRegistry;
use crate::chunkbuf::ChunkBuf;
use crate::meshutil::Face;
use crate::lighting::{LightGrid, LightBorders, LightingStore, face_light, dims_of, nb_planes_fit};
use crate::meshing::{SliceRects, build_mesh_core, slice_order, slice_dims, slice_cell, face_mask, mask_answered, deterministic};
use crate::greedy::greedy_decomposition;
use crate::grid::in_grid;
use crate::greedy::FaceCode;
use crate::construct::unknown_material;

verus! {

/// Which horizontal neighbor chunks are loaded.
#[derive(Clone, Copy, Debug, Default, PartialEq, Eq, Structural)]
pub struct NeighborsLoaded {
    /// west, chunk (cx - 1, cz)
    pub neg_x: bool,
    /// east, chunk (cx + 1, cz)
    pub pos_x: bool,
    /// north, chunk (cx, cz - 1)
    pub neg_z: bool,
    /// south, chunk (cx, cz + 1)
    pub pos_z: bool,
}

impl BlockRegistry {
    /// Every entry's layout and tables are in order.
    pub open spec fn lookups_wf(&self) -> bool {
        &&& self.blocks_wf()
    }
}

pub open spec fn spec_is_solid(reg: BlockRegistry, b: Block) -> bool {
    match reg.spec_get(b.id) {
        Some(t) => t.solid,
        None => false,
    }
}

/// The material of a face of `b` from the cached tables, or the fallback
/// material for an unregistered block.
pub open spec fn spec_face_material(reg: BlockRegistry, b: Block, face: Face) -> MaterialId {
    match reg.spec_get(b.id) {
        Some(t) => t.spec_material_cached(face.spec_role(), b.state),
        None => unknown_material(reg.materials),
    }
}

/// Whether `b` closes the given face (bit `face` of its cached occlusion mask).
pub open spec fn spec_occludes(reg: BlockRegistry, b: Block, face: Face) -> bool {
    let mask: u8 = match reg.spec_get(b.id) {
        Some(t) => t.spec_occlusion_cached(b.state),
        None => 0u8,
    };
    (mask >> (face.spec_index() as u8)) & 1u8 == 1u8
}

/// Whether `b` is a slab or stairs in its upper half.
pub open spec fn spec_top_half(reg: BlockRegistry, b: Block) -> bool {
    match reg.spec_get(b.id) {
        Some(t) => match t.shape {
            Shape::Slab { half_from } => t.spec_prop_value(b.state, half_from@) == Some("top"@),
            Shape::Stairs { half_from, .. } => t.spec_prop_value(b.state, half_from@) == Some("top"@),
            _ => false,
        },
        None => false,
    }
}

fn is_solid_runtime(b: Block, reg: &BlockRegistry) -> (r: bool)
    ensures
        r == spec_is_solid(*reg, b),
{
    match reg.get(b.id) {
        Some(ty) => ty.is_solid(b.state),
        None => false,
    }
}

fn unknown_material_id(reg: &BlockRegistry) -> (r: MaterialId)
    ensures
        r == unknown_material(reg.materials),
{
    match reg.materials.get_id("unknown") {
        Some(m) => m,
        None => MaterialId(0),
    }
}

fn registry_material_for_or_unknown(block: Block, face: Face, reg: &BlockRegistry) -> (r: MaterialId)
    requires
        reg.lookups_wf(),
    ensures
        r == spec_face_material(*reg, block, face),
{
    match reg.get(block.id) {
        Some(ty) => ty.material_for_cached(face.role(), block.state),
        None => unknown_material_id(reg),
    }
}

fn occludes_face(nb: Block, face: Face, reg: &BlockRegistry) -> (r: bool)
    requires
        reg.lookups_wf(),
    ensures
        r == spec_occludes(*reg, nb, face),
{
    let mask: u8 = match reg.get(nb.id) {
        Some(ty) => ty.occlusion_mask_cached(nb.state),
        None => 0,
    };
    (mask >> (face.index() as u8)) & 1 == 1
}

fn is_top_half_shape(b: Block, reg: &BlockRegistry) -> (r: bool)
    requires
        reg.lookups_wf(),
    ensures
        r == spec_top_half(*reg, b),
{
    match reg.get(b.id) {
        Some(ty) => match &ty.shape {
            Shape::Slab { half_from } => {
                ty.state_prop_is_value(b.state, half_from.as_str(), "top")
            },
            Shape::Stairs { half_from, .. } => {
                ty.state_prop_is_value(b.state, half_from.as_str(), "top")
            },
            _ => false,
        },
        None => false,
    }
}

/// Whether the chunk across the edge that world column `(nx, nz)` lies
/// beyond is loaded: west, east, north or south, in that order of checks;
/// false for a column within the chunk's extent.
pub open spec fn spec_neighbor_loaded(buf: ChunkBuf, nmask: NeighborsLoaded, nx: int, nz: int) -> bool {
    if nx < buf.x0() {
        nmask.neg_x
    } else if nx >= buf.x0() + buf.sx {
        nmask.pos_x
    } else if nz < buf.z0() {
        nmask.neg_z
    } else if nz >= buf.z0() + buf.sz {
        nmask.pos_z
    } else {
        false
    }
}

/// Whether the neighbor at `(nx, ny, nz)` closes face `face` of a solid
/// block `here`: a neighbor inside the chunk by its occlusion mask; one
/// outside only when its chunk is loaded and the caller knows it (`outside`).
pub open spec fn spec_is_occluder(buf: ChunkBuf, reg: BlockRegistry, nmask: NeighborsLoaded, here: Block, face: Face, nx: int, ny: int, nz: int, outside: Option<Block>) -> bool {
    if !spec_is_solid(reg, here) {
        false
    } else if buf.spec_contains_world(nx, ny, nz) {
        spec_occludes(reg, buf.spec_local(nx - buf.x0(), ny, nz - buf.z0()), face)
    } else if !spec_neighbor_loaded(buf, nmask, nx, nz) {
        false
    } else {
        match outside {
            Some(nb) => spec_occludes(reg, nb, face),
            None => false,
        }
    }
}

fn max_u8(a: u8, b: u8) -> (r: u8)
    ensures
        r == (if a >= b { a } else { b }),
{
    if a >= b { a } else { b }
}

pub open spec fn max8(a: u8, b: u8) -> u8 {
    if a >= b { a } else { b }
}

/// The floor under every face light the mesher emits (about 7% brightness).
pub const VISUAL_LIGHT_MIN: u8 = 18;

/// Light for a half-height face: the brighter of the cell's own face light
/// and that of the cell above (upper half) or below (lower half), where that
/// cell lies below height `sy`, raised to the visual floor.
pub open spec fn spec_half_light(light: LightGrid, x: int, y: int, z: int, face: Face, draw_top_half: bool, sy: int) -> u8 {
    let f = face.spec_index() as int;
    let l0 = face_light(light.dims(), light.sky(), light.blk(), light.bcn(), light.planes(), x, y, z, f);
    let ladd = if draw_top_half {
        if y + 1 < sy {
            face_light(light.dims(), light.sky(), light.blk(), light.bcn(), light.planes(), x, y + 1, z, f)
        } else {
            l0
        }
    } else if y > 0 {
        face_light(light.dims(), light.sky(), light.blk(), light.bcn(), light.planes(), x, y - 1, z, f)
    } else {
        l0
    };
    max8(max8(l0, ladd), VISUAL_LIGHT_MIN)
}

/// See `spec_half_light`.
pub fn sample_neighbor_half_light(light: &LightGrid, x: usize, y: usize, z: usize, face: Face, draw_top_half: bool, sy: usize) -> (r: u8)
    requires
        light.wf(),
        in_grid(light.dims().0 as int, light.dims().1 as int, light.dims().2 as int, x as int, y as int, z as int),
        sy <= light.dims().1,
    ensures
        r == spec_half_light(*light, x as int, y as int, z as int, face, draw_top_half, sy as int),
{
    let l0 = light.sample_face_local(x, y, z, face.index());
    let ladd = if draw_top_half {
        if y + 1 < sy {
            light.sample_face_local(x, y + 1, z, face.index())
        } else {
            l0
        }
    } else if y > 0 {
        light.sample_face_local(x, y - 1, z, face.index())
    } else {
        l0
    };
    max_u8(max_u8(l0, ladd), VISUAL_LIGHT_MIN)
}

/// The face test of the chunk mesher for face `face` of local cell
/// `(x, y, z)`: `None` for a non-solid block or a closed face; else the
/// face's material and light. The top of a block under an upper-half slab
/// or stairs also takes the brightest of the block's four side lights.
/// `outside` is the neighbor across the face when it lies in another chunk.
pub open spec fn spec_chunk_face_info(buf: ChunkBuf, light: LightGrid, reg: BlockRegistry, nmask: NeighborsLoaded, x: int, y: int, z: int, face: Face, outside: Option<Block>) -> Option<FaceCode> {
    let here = buf.spec_local(x, y, z);
    let (dx, dy, dz) = face.spec_delta();
    let (nx, ny, nz) = (buf.x0() + x + dx, y + dy, buf.z0() + z + dz);
    let sample = |f: int| face_light(light.dims(), light.sky(), light.blk(), light.bcn(), light.planes(), x, y, z, f);
    if !spec_is_solid(reg, here) {
        None
    } else if spec_is_occluder(buf, reg, nmask, here, face, nx, ny, nz, outside) {
        None
    } else {
        let l = sample(face.spec_index() as int);
        let lit = if face == Face::PosY && buf.spec_contains_world(nx, ny, nz)
            && spec_top_half(reg, buf.spec_local(nx - buf.x0(), ny, nz - buf.z0())) {
            max8(l, max8(max8(max8(sample(2), sample(3)), sample(4)), sample(5)))
        } else {
            l
        };
        Some((spec_face_material(reg, here, face), lit))
    }
}

/// The chunk mesher's face test (see `spec_chunk_face_info`).
pub fn chunk_face_info(buf: &ChunkBuf, light: &LightGrid, reg: &BlockRegistry, nmask: NeighborsLoaded, x: usize, y: usize, z: usize, face: Face, outside: Option<Block>) -> (r: Option<FaceCode>)
    requires
        buf.wf(),
        buf.world_fits(),
        i32::MIN < buf.x0() && buf.x0() + buf.sx < i32::MAX,
        i32::MIN < buf.z0() && buf.z0() + buf.sz < i32::MAX,
        in_grid(buf.sx as int, buf.sy as int, buf.sz as int, x as int, y as int, z as int),
        light.wf(),
        light.dims() == (buf.sx, buf.sy, buf.sz),
        reg.lookups_wf(),
    ensures
        r == spec_chunk_face_info(*buf, *light, *reg, nmask, x as int, y as int, z as int, face, outside),
{
    let here = buf.get_local(x, y, z);
    if !is_solid_runtime(here, reg) {
        return None;
    }
    let x0: i32 = buf.cx * buf.sx as i32;
    let z0: i32 = buf.cz * buf.sz as i32;
    let gx: i32 = x0 + x as i32;
    let gy: i32 = y as i32;
    let gz: i32 = z0 + z as i32;
    let (dx, dy, dz) = face.delta();
    let nx: i32 = gx + dx;
    let ny: i32 = gy + dy;
    let nz: i32 = gz + dz;
    let inside = buf.contains_world(nx, ny, nz);
    let occluded = if inside {
        let nb = buf.get_world(nx, ny, nz).unwrap();
        occludes_face(nb, face, reg)
    } else {
        let loaded = if nx < x0 {
            nmask.neg_x
        } else if nx >= x0 + buf.sx as i32 {
            nmask.pos_x
        } else if nz < z0 {
            nmask.neg_z
        } else if nz >= z0 + buf.sz as i32 {
            nmask.pos_z
        } else {
            false
        };
        if !loaded {
            false
        } else {
            match outside {
                Some(nb) => occludes_face(nb, face, reg),
                None => false,
            }
        }
    };
    if occluded {
        return None;
    }
    let mut l = light.sample_face_local(x, y, z, face.index());
    if face == Face::PosY && inside {
        let nb = buf.get_world(nx, ny, nz).unwrap();
        if is_top_half_shape(nb, reg) {
            let a = light.sample_face_local(x, y, z, 2);
            let b = light.sample_face_local(x, y, z, 3);
            let c = light.sample_face_local(x, y, z, 4);
            let d = light.sample_face_local(x, y, z, 5);
            let l2 = max_u8(max_u8(max_u8(a, b), c), d);
            l = max_u8(l, l2);
        }
    }
    let mid = registry_material_for_or_unknown(here, face, reg);
    Some((mid, l))
}

/// Simple cardinal facing used by stairs and similar shapes.
#[derive(Clone, Copy, Debug, PartialEq, Eq, Hash, Structural)]
pub enum Facing {
    North,
    South,
    West,
    East,
}

fn same_text(a: &str, b: &str) -> (r: bool)
    ensures
        r == (a@ == b@),
{
    let x = a.to_owned();
    let y = b.to_owned();
    x == y
}

impl Facing {
    /// The facing a property value names; anything else reads as north.
    pub open spec fn spec_from_str(s: Seq<char>) -> Facing {
        if s == "north"@ {
            Facing::North
        } else if s == "south"@ {
            Facing::South
        } else if s == "west"@ {
            Facing::West
        } else if s == "east"@ {
            Facing::East
        } else {
            Facing::North
        }
    }

    pub fn from_str(s: &str) -> (r: Facing)
        ensures
            r == Self::spec_from_str(s@),
    {
        if same_text(s, "north") {
            Facing::North
        } else if same_text(s, "south") {
            Facing::South
        } else if same_text(s, "west") {
            Facing::West
        } else if same_text(s, "east") {
            Facing::East
        } else {
            Facing::North
        }
    }
}


/// Light of a free-standing body's face: the ambient level, brighter by 40
/// on top and darker by 60 underneath, kept within a byte.
pub open spec fn spec_body_face_light(face: Face, ambient: u8) -> u8 {
    match face {
        Face::PosY => if ambient as int + 40 > 255 { 255u8 } else { (ambient + 40) as u8 },
        Face::NegY => if ambient < 60 { 0u8 } else { (ambient - 60) as u8 },
        _ => ambient,
    }
}

fn body_face_light(face: Face, ambient: u8) -> (r: u8)
    ensures
        r == spec_body_face_light(face, ambient),
{
    match face {
        Face::PosY => if ambient > 215 { 255 } else { ambient + 40 },
        Face::NegY => if ambient < 60 { 0 } else { ambient - 60 },
        _ => ambient,
    }
}

/// The face test for a free-standing voxel body (no world around it): a
/// solid block shows a face unless the neighbor across it lies inside the
/// buffer and closes that face; the face takes the block's cached material
/// and the ambient light shaded by facing.
pub open spec fn spec_body_face_info(buf: ChunkBuf, reg: BlockRegistry, ambient: u8, x: int, y: int, z: int, face: Face) -> Option<FaceCode> {
    let here = buf.spec_local(x, y, z);
    let (dx, dy, dz) = face.spec_delta();
    let (nx, ny, nz) = (x + dx, y + dy, z + dz);
    if !spec_is_solid(reg, here) {
        None
    } else if in_grid(buf.sx as int, buf.sy as int, buf.sz as int, nx, ny, nz) && spec_occludes(reg, buf.spec_local(nx, ny, nz), face) {
        None
    } else {
        Some((spec_face_material(reg, here, face), spec_body_face_light(face, ambient)))
    }
}

/// The voxel body mesher's face test (see `spec_body_face_info`).
pub fn body_face_info(buf: &ChunkBuf, reg: &BlockRegistry, ambient: u8, x: usize, y: usize, z: usize, face: Face) -> (r: Option<FaceCode>)
    requires
        buf.wf(),
        in_grid(buf.sx as int, buf.sy as int, buf.sz as int, x as int, y as int, z as int),
        reg.lookups_wf(),
    ensures
        r == spec_body_face_info(*buf, *reg, ambient, x as int, y as int, z as int, face),
{
    let here = buf.get_local(x, y, z);
    if !is_solid_runtime(here, reg) {
        return None;
    }
    let nbr: Option<(usize, usize, usize)> = match face {
        Face::PosY => if y + 1 < buf.sy { Some((x, y + 1, z)) } else { None },
        Face::NegY => if y > 0 { Some((x, y - 1, z)) } else { None },
        Face::PosX => if x + 1 < buf.sx { Some((x + 1, y, z)) } else { None },
        Face::NegX => if x > 0 { Some((x - 1, y, z)) } else { None },
        Face::PosZ => if z + 1 < buf.sz { Some((x, y, z + 1)) } else { None },
        Face::NegZ => if z > 0 { Some((x, y, z - 1)) } else { None },
    };
    let occluded = match nbr {
        Some((nx, ny, nz)) => occludes_face(buf.get_local(nx, ny, nz), face, reg),
        None => false,
    };
    if occluded {
        return None;
    }
    let mid = registry_material_for_or_unknown(here, face, reg);
    Some((mid, body_face_light(face, ambient)))
}


/// The block lookup across a chunk's edge gives one answer per position.
pub open spec fn outside_deterministic<G: Fn(i32, i32, i32) -> Option<Block>>(g: &G) -> bool {
    forall|p: (i32, i32, i32), o1: Option<Block>, o2: Option<Block>| #[trigger] g.ensures(p, o1) && #[trigger] g.ensures(p, o2) ==> o1 == o2
}

/// The block the lookup gives at a world position.
pub open spec fn outside_of<G: Fn(i32, i32, i32) -> Option<Block>>(g: &G, p: (i32, i32, i32)) -> Option<Block> {
    choose|o: Option<Block>| g.ensures(p, o)
}

/// The world position across `face` from local cell `(x, y, z)`.
pub open spec fn spec_nb_world(buf: &ChunkBuf, x: int, y: int, z: int, face: Face) -> (i32, i32, i32) {
    let (dx, dy, dz) = face.spec_delta();
    ((buf.x0() + x + dx) as i32, (y + dy) as i32, (buf.z0() + z + dz) as i32)
}

/// The chunk mesher's face test at a cell of the chunk, with the block
/// across the chunk's edge taken from the lookup; no face off the grid.
pub open spec fn chunk_cell_face<G: Fn(i32, i32, i32) -> Option<Block>>(buf: &ChunkBuf, light: &LightGrid, reg: &BlockRegistry, nmask: NeighborsLoaded, g: &G, x: int, y: int, z: int, face: Face) -> Option<FaceCode> {
    if in_grid(buf.sx as int, buf.sy as int, buf.sz as int, x, y, z) {
        spec_chunk_face_info(*buf, *light, *reg, nmask, x, y, z, face, outside_of(g, spec_nb_world(buf, x, y, z, face)))
    } else {
        None
    }
}

/// The face mask of a slice for the chunk mesher, given the chunk's light and
/// the blocks the lookup gives across its edges.
pub open spec fn chunk_mask<G: Fn(i32, i32, i32) -> Option<Block>>(buf: ChunkBuf, light: LightGrid, reg: BlockRegistry, nmask: NeighborsLoaded, g: G, face: Face, layer: int) -> Seq<Option<FaceCode>> {
    let (w, h) = slice_dims(face, buf.sx as nat, buf.sy as nat, buf.sz as nat);
    Seq::new(w * h, |c: int| {
        let (x, y, z) = slice_cell(face, layer, c % (w as int), c / (w as int));
        chunk_cell_face(&buf, &light, &reg, nmask, &g, x, y, z, face)
    })
}

/// Slices, in meshing order, each the greedy rectangles of the chunk
/// mesher's faces there.
pub open spec fn chunk_mesh_of<G: Fn(i32, i32, i32) -> Option<Block>>(buf: ChunkBuf, light: LightGrid, reg: BlockRegistry, nmask: NeighborsLoaded, g: G, slices: Seq<SliceRects>) -> bool {
    &&& slices.len() == slice_order(buf.sx as nat, buf.sy as nat, buf.sz as nat).len()
    &&& forall|s: int| 0 <= s < slices.len() ==> {
        let (face, layer) = slice_order(buf.sx as nat, buf.sy as nat, buf.sz as nat)[s];
        let (w, h) = slice_dims(face, buf.sx as nat, buf.sy as nat, buf.sz as nat);
        &&& (#[trigger] slices[s]).face == face
        &&& slices[s].layer == layer
        &&& greedy_decomposition(w as int, h as int, chunk_mask(buf, light, reg, nmask, g, face, layer as int), slices[s].rects@)
    }
}

/// Each slice in meshing order lies within the chunk.
proof fn lemma_slice_order_layer(sx: nat, sy: nat, sz: nat, s: int)
    requires
        0 <= s < slice_order(sx, sy, sz).len(),
    ensures
        ({
            let (face, layer) = slice_order(sx, sy, sz)[s];
            layer < match face {
                Face::PosY | Face::NegY => sy,
                Face::PosX | Face::NegX => sx,
                Face::PosZ | Face::NegZ => sz,
            }
        }),
{
    let a = Seq::new(sy, |i: int| (Face::PosY, i as nat));
    let b = Seq::new(sy, |i: int| (Face::NegY, i as nat));
    let c = Seq::new(2 * sx, |i: int| (if i % 2 == 0 { Face::NegX } else { Face::PosX }, (i / 2) as nat));
    let d = Seq::new(2 * sz, |i: int| (if i % 2 == 0 { Face::NegZ } else { Face::PosZ }, (i / 2) as nat));
    assert(slice_order(sx, sy, sz) == a + b + c + d);
    if s < sy {
        assert(slice_order(sx, sy, sz)[s] == a[s]);
    } else if s < 2 * sy {
        assert(slice_order(sx, sy, sz)[s] == b[s - sy]);
    } else if s < 2 * sy + 2 * sx {
        assert(slice_order(sx, sy, sz)[s] == c[s - 2 * sy]);
    } else {
        assert(slice_order(sx, sy, sz)[s] == d[s - 2 * sy - 2 * sx]);
    }
}

/// Meshes a chunk: no mesh without a lighting store; otherwise the chunk is
/// lit from the store, meshed greedily with the chunk mesher's face test
/// (`outside_at` gives the block at a world position across the chunk's
/// edge), and returned with the light borders it exposes.
pub fn build_chunk_mesh<G: Fn(i32, i32, i32) -> Option<Block>>(
    buf: &ChunkBuf,
    lighting: Option<&LightingStore>,
    reg: &BlockRegistry,
    nmask: NeighborsLoaded,
    outside_at: G,
) -> (r: Option<(Vec<SliceRects>, LightBorders)>)
    requires
        buf.wf(),
        buf.sx > 0 && buf.sy > 0 && buf.sz > 0,
        buf.sx * buf.sy <= usize::MAX,
        buf.sx * buf.sy * buf.sz <= usize::MAX,
        2 * buf.sx + 2 * buf.sy + 2 * buf.sz <= usize::MAX,
        buf.world_fits(),
        i32::MIN < buf.x0() && buf.x0() + buf.sx < i32::MAX,
        i32::MIN < buf.z0() && buf.z0() + buf.sz < i32::MAX,
        i32::MIN < buf.cx < i32::MAX,
        i32::MIN < buf.cz < i32::MAX,
        lighting matches Some(store) ==> nb_planes_fit(store.neighbor_planes(buf.cx, buf.cz), dims_of(buf)),
        reg.lookups_wf(),
        forall|p: (i32, i32, i32)| outside_at.requires(p),
        outside_deterministic(&outside_at),
    ensures
        lighting is None ==> r is None,
        lighting matches Some(store) ==> (r matches Some(res) && exists|lg: LightGrid| {
            &&& #[trigger] lg.lit_from(buf, reg, store.emitters_at(buf.cx, buf.cz), store.neighbor_planes(buf.cx, buf.cz))
            &&& res.1.planes_of(dims_of(buf), lg.sky(), lg.blk(), lg.bcn(), lg.bcn_dir())
            &&& chunk_mesh_of(*buf, lg, *reg, nmask, outside_at, res.0@)
        }),
{
    let store = match lighting {
        Some(s) => s,
        None => return None,
    };
    let light = LightGrid::compute_with_borders_buf(buf, store, reg);
    let g = &outside_at;
    let lr = &light;
    let face_info = |x: usize, y: usize, z: usize, face: Face, here: Block| -> (r: Option<FaceCode>)
        requires
            buf.wf(),
            buf.world_fits(),
            i32::MIN < buf.x0() && buf.x0() + buf.sx < i32::MAX,
            i32::MIN < buf.z0() && buf.z0() + buf.sz < i32::MAX,
            lr.wf(),
            lr.dims() == (buf.sx, buf.sy, buf.sz),
            reg.lookups_wf(),
            forall|p: (i32, i32, i32)| g.requires(p),
            outside_deterministic(g),
        ensures
            r == chunk_cell_face(buf, lr, reg, nmask, g, x as int, y as int, z as int, face),
    {
        if x < buf.sx && y < buf.sy && z < buf.sz {
            let x0: i32 = buf.cx * buf.sx as i32;
            let z0: i32 = buf.cz * buf.sz as i32;
            let (dx, dy, dz) = face.delta();
            let nx: i32 = x0 + x as i32 + dx;
            let ny: i32 = y as i32 + dy;
            let nz: i32 = z0 + z as i32 + dz;
            let o = g(nx, ny, nz);
            proof {
                assert((nx, ny, nz) == spec_nb_world(buf, x as int, y as int, z as int, face));
                let c = outside_of(g, (nx, ny, nz));
                assert(g.ensures((nx, ny, nz), c));
                assert(o == c);
            }
            chunk_face_info(buf, lr, reg, nmask, x, y, z, face, o)
        } else {
            None
        }
    };
    let slices = build_mesh_core(buf, face_info);
    let borders = LightBorders::from_grid(&light);
    proof {
        let order = slice_order(buf.sx as nat, buf.sy as nat, buf.sz as nat);
        assert forall|s: int| 0 <= s < slices@.len() implies {
            let (face, layer) = #[trigger] order[s];
            face_mask(*buf, face_info, face, layer as int) == chunk_mask(*buf, light, *reg, nmask, outside_at, face, layer as int)
        } by {
            let (face, layer) = order[s];
            let (w, h) = slice_dims(face, buf.sx as nat, buf.sy as nat, buf.sz as nat);
            assert(slices@[s].face == face);
            assert(mask_answered(*buf, face_info, face, layer as int));
            lemma_slice_order_layer(buf.sx as nat, buf.sy as nat, buf.sz as nat, s);
            assert forall|c: int| 0 <= c < w * h implies #[trigger] face_mask(*buf, face_info, face, layer as int)[c]
                == chunk_mask(*buf, light, *reg, nmask, outside_at, face, layer as int)[c] by {
                let u = c % (w as int);
                let v = c / (w as int);
                assert(0 <= u < w && 0 <= v < h) by {
                    vstd::arithmetic::div_mod::lemma_fundamental_div_mod(c, w as int);
                    vstd::arithmetic::div_mod::lemma_mod_pos_bound(c, w as int);
                    assert(v < h) by (nonlinear_arith)
                        requires
                            c == w * v + u,
                            0 <= u < w,
                            c < w * h,
                    ;
                    assert(v >= 0) by (nonlinear_arith)
                        requires
                            c == w * v + u,
                            u < w,
                            c >= 0,
                    ;
                }
                let (x, y, z) = slice_cell(face, layer as int, u, v);
                assert(in_grid(buf.sx as int, buf.sy as int, buf.sz as int, x, y, z));
                assert(face_info.ensures((x as usize, y as usize, z as usize, face, buf.spec_local(x, y, z)), face_mask(*buf, face_info, face, layer as int)[c]));
            }
            assert(face_mask(*buf, face_info, face, layer as int) =~= chunk_mask(*buf, light, *reg, nmask, outside_at, face, layer as int));
        }
        assert(chunk_mesh_of(*buf, light, *reg, nmask, outside_at, slices@));
        assert(light.lit_from(buf, reg, store.emitters_at(buf.cx, buf.cz), store.neighbor_planes(buf.cx, buf.cz)));
    }
    Some((slices, borders))
}


/// Whether the neighbor chunk across a side face is loaded; `true` for the
/// vertical faces, which have no neighbor chunk.
pub open spec fn side_loaded(nmask: NeighborsLoaded, face: Face) -> bool {
    match face {
        Face::PosX => nmask.pos_x,
        Face::NegX => nmask.neg_x,
        Face::PosZ => nmask.pos_z,
        Face::NegZ => nmask.neg_z,
        _ => true,
    }
}

/// Whether a local cell lies on the chunk side that `face` looks out of.
pub open spec fn on_chunk_side(buf: ChunkBuf, x: int, z: int, face: Face) -> bool {
    match face {
        Face::PosX => x == buf.sx - 1,
        Face::NegX => x == 0,
        Face::PosZ => z == buf.sz - 1,
        Face::NegZ => z == 0,
        _ => false,
    }
}

/// A side face of a block on the chunk's edge looks into the neighbor
/// chunk on that side: whether it shows depends on that neighbor's loaded
/// flag and on no other (two masks that agree on it give the same answer),
/// and while that neighbor is not loaded every solid block shows the face.
pub proof fn lemma_edge_faces_follow_their_own_neighbor(
    buf: ChunkBuf,
    light: LightGrid,
    reg: BlockRegistry,
    m1: NeighborsLoaded,
    m2: NeighborsLoaded,
    x: int,
    y: int,
    z: int,
    face: Face,
    outside: Option<Block>,
)
    requires
        in_grid(buf.sx as int, buf.sy as int, buf.sz as int, x, y, z),
        on_chunk_side(buf, x, z, face),
    ensures
        side_loaded(m1, face) == side_loaded(m2, face) ==>
            spec_chunk_face_info(buf, light, reg, m1, x, y, z, face, outside) == spec_chunk_face_info(buf, light, reg, m2, x, y, z, face, outside),
        !side_loaded(m1, face) && spec_is_solid(reg, buf.spec_local(x, y, z)) ==>
            spec_chunk_face_info(buf, light, reg, m1, x, y, z, face, outside) is Some,
{
    let (dx, dy, dz) = face.spec_delta();
    let (nx, nz) = (buf.x0() + x + dx, buf.z0() + z + dz);
    assert(!buf.spec_contains_world(nx, y + dy, nz));
    assert(spec_neighbor_loaded(buf, m1, nx, nz) == side_loaded(m1, face));
    assert(spec_neighbor_loaded(buf, m2, nx, nz) == side_loaded(m2, face));
}

} // verus!
