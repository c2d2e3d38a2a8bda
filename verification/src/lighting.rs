//! Per-chunk lighting: skylight, block light and directional beacon light,
//! seeded from the chunk's blocks, stored emitters and neighbor border
//! planes, then spread by breadth-first propagation.
use vstd::prelude::*;
use std::collections::VecDeque;
use crate::types::Block;
use crate::registry::{BlockRegistry, CompiledLight};
use crate::chunkbuf::ChunkBuf;
use crate::keys::{chunk_key, pack_chunk_key, lemma_chunk_key_inj, floor_div_mod};
use vstd::hash_map::HashMapWithView;
use crate::grid::{grid_idx, in_grid, lemma_grid_idx_bounds, lemma_grid_size_parts};
use crate::propagate::{
    Dims, dominates, least_closure, below_every_closure, beam_closed, queue_ok, pending_ok, closed,
    closed_at, beam_queue_ok, beam_pending_except, beam_closed_at, beam_entry_valid,
    entry_valid, lemma_contains_push, propagate, propagate_beam, beam_cells_reached,
    beam_entries_start, beam_entry_start,
};

verus! {

/// Id of the block named "air", or 0 when the registry has none.
pub open spec fn air_id(reg: &BlockRegistry) -> u16 {
    match reg.spec_id_by_name("air"@) {
        Some(id) => id,
        None => 0,
    }
}

pub open spec fn is_air(reg: &BlockRegistry, b: Block) -> bool {
    b.id == air_id(reg)
}

/// Skylight passes air and any registered block that does not block skylight.
pub open spec fn sky_passes(reg: &BlockRegistry, b: Block) -> bool {
    is_air(reg, b) || (reg.spec_get(b.id) is Some && !reg.spec_get(b.id)->0.blocks_skylight)
}

/// Light emitted by a block according to its registered type.
pub open spec fn emission_of(reg: &BlockRegistry, b: Block) -> u8 {
    match reg.spec_get(b.id) {
        Some(t) => t.emission,
        None => 0,
    }
}

/// Whether a block's registered light is a beam (beacon light).
pub open spec fn is_beam(reg: &BlockRegistry, b: Block) -> bool {
    match reg.spec_get(b.id) {
        Some(t) => t.light is Beam,
        None => false,
    }
}

fn air_id_exec(reg: &BlockRegistry) -> (r: u16)
    ensures
        r == air_id(reg),
{
    match reg.id_by_name("air") {
        Some(id) => id,
        None => 0,
    }
}

fn passes_with(reg: &BlockRegistry, air: u16, b: Block) -> (r: bool)
    requires
        air == air_id(reg),
    ensures
        r == sky_passes(reg, b),
{
    if b.id == air {
        return true;
    }
    match reg.get(b.id) {
        Some(ty) => !ty.blocks_skylight,
        None => false,
    }
}

/// Whether skylight passes through a block: air always does, other blocks
/// when their registered type does not block skylight.
pub fn skylight_transparent(b: Block, reg: &BlockRegistry) -> (r: bool)
    ensures
        r == sky_passes(reg, b),
{
    let air = air_id_exec(reg);
    passes_with(reg, air, b)
}

fn light_info(reg: &BlockRegistry, b: Block) -> (r: (u8, bool))
    ensures
        r.0 == emission_of(reg, b),
        r.1 == is_beam(reg, b),
{
    match reg.get(b.id) {
        Some(ty) => (ty.light_emission(b.state), ty.light_is_beam()),
        None => (0, false),
    }
}

pub struct LightGrid {
    sx: usize,
    sy: usize,
    sz: usize,
    skylight: Vec<u8>,
    block_light: Vec<u8>,
    beacon_light: Vec<u8>,
    /// Direction of beacon travel per cell: 0 source, 1 +X, 2 -X, 3 +Z, 4 -Z, 5 non-cardinal.
    beacon_dir: Vec<u8>,
    nb_xn_blk: Option<Vec<u8>>,
    nb_xp_blk: Option<Vec<u8>>,
    nb_zn_blk: Option<Vec<u8>>,
    nb_zp_blk: Option<Vec<u8>>,
    nb_xn_sky: Option<Vec<u8>>,
    nb_xp_sky: Option<Vec<u8>>,
    nb_zn_sky: Option<Vec<u8>>,
    nb_zp_sky: Option<Vec<u8>>,
    nb_xn_bcn: Option<Vec<u8>>,
    nb_xp_bcn: Option<Vec<u8>>,
    nb_zn_bcn: Option<Vec<u8>>,
    nb_zp_bcn: Option<Vec<u8>>,
    nb_xn_bcn_dir: Option<Vec<u8>>,
    nb_xp_bcn_dir: Option<Vec<u8>>,
    nb_zn_bcn_dir: Option<Vec<u8>>,
    nb_zp_bcn_dir: Option<Vec<u8>>,
}

impl LightGrid {
    pub closed spec fn dims(&self) -> (usize, usize, usize) {
        (self.sx, self.sy, self.sz)
    }

    pub closed spec fn sky(&self) -> Seq<u8> {
        self.skylight@
    }

    pub closed spec fn blk(&self) -> Seq<u8> {
        self.block_light@
    }

    pub closed spec fn bcn(&self) -> Seq<u8> {
        self.beacon_light@
    }

    pub closed spec fn bcn_dir(&self) -> Seq<u8> {
        self.beacon_dir@
    }

    /// Neighbor planes in the order xn, xp, zn, zp for block light, then
    /// skylight, then beacon light, then beacon direction.
    pub closed spec fn planes(&self) -> Seq<Option<Seq<u8>>> {
        seq![
            opt_view(&self.nb_xn_blk), opt_view(&self.nb_xp_blk), opt_view(&self.nb_zn_blk), opt_view(&self.nb_zp_blk),
            opt_view(&self.nb_xn_sky), opt_view(&self.nb_xp_sky), opt_view(&self.nb_zn_sky), opt_view(&self.nb_zp_sky),
            opt_view(&self.nb_xn_bcn), opt_view(&self.nb_xp_bcn), opt_view(&self.nb_zn_bcn), opt_view(&self.nb_zp_bcn),
            opt_view(&self.nb_xn_bcn_dir), opt_view(&self.nb_xp_bcn_dir), opt_view(&self.nb_zn_bcn_dir), opt_view(&self.nb_zp_bcn_dir),
        ]
    }

    /// All four channels hold one value per cell.
    pub closed spec fn wf(&self) -> bool {
        let n = self.sx * self.sy * self.sz;
        &&& self.skylight@.len() == n
        &&& self.block_light@.len() == n
        &&& self.beacon_light@.len() == n
        &&& self.beacon_dir@.len() == n
        &&& n <= usize::MAX
    }

    /// A dark grid with no neighbor planes.
    pub fn new(sx: usize, sy: usize, sz: usize) -> (g: LightGrid)
        requires
            sx * sy <= usize::MAX,
            sx * sy * sz <= usize::MAX,
        ensures
            g.wf(),
            g.dims() == (sx, sy, sz),
            g.sky() == Seq::new((sx * sy * sz) as nat, |i: int| 0u8),
            g.blk() == Seq::new((sx * sy * sz) as nat, |i: int| 0u8),
            g.bcn() == Seq::new((sx * sy * sz) as nat, |i: int| 0u8),
            g.bcn_dir() == Seq::new((sx * sy * sz) as nat, |i: int| 0u8),
            forall|k: int| 0 <= k < 16 ==> #[trigger] g.planes()[k] is None,
    {
        proof {
            lemma_grid_size_parts(sx as int, sy as int, sz as int);
        }
        let n = sx * sy * sz;
        let g = LightGrid {
            sx,
            sy,
            sz,
            skylight: vec![0; n],
            block_light: vec![0; n],
            beacon_light: vec![0; n],
            beacon_dir: vec![0; n],
            nb_xn_blk: None,
            nb_xp_blk: None,
            nb_zn_blk: None,
            nb_zp_blk: None,
            nb_xn_sky: None,
            nb_xp_sky: None,
            nb_zn_sky: None,
            nb_zp_sky: None,
            nb_xn_bcn: None,
            nb_xp_bcn: None,
            nb_zn_bcn: None,
            nb_zp_bcn: None,
            nb_xn_bcn_dir: None,
            nb_xp_bcn_dir: None,
            nb_zn_bcn_dir: None,
            nb_zp_bcn_dir: None,
        };
        assert(g.skylight@ =~= Seq::new((sx * sy * sz) as nat, |i: int| 0u8));
        assert(g.block_light@ =~= Seq::new((sx * sy * sz) as nat, |i: int| 0u8));
        assert(g.beacon_light@ =~= Seq::new((sx * sy * sz) as nat, |i: int| 0u8));
        assert(g.beacon_dir@ =~= Seq::new((sx * sy * sz) as nat, |i: int| 0u8));
        g
    }
}

pub open spec fn opt_view(p: &Option<Vec<u8>>) -> Option<Seq<u8>> {
    match p {
        Some(v) => Some(v@),
        None => None,
    }
}


/// Light values seeded so far, each waiting in the queue unless zero.
pub open spec fn seeded(l: Seq<u8>, q: Seq<(usize, usize, usize, u8)>, dm: Dims) -> bool {
    &&& l.len() == dm.n()
    &&& dm.n() <= usize::MAX
    &&& queue_ok(l, q, dm)
    &&& forall|x: usize, y: usize, z: usize|
        dm.inside((x as int, y as int, z as int)) ==> #[trigger] l[dm.at((x as int, y as int, z as int))] == 0
            || q.contains((x, y, z, l[dm.at((x as int, y as int, z as int))]))
}

pub open spec fn max_int(a: int, b: int) -> int {
    if a >= b { a } else { b }
}

/// Raises the light of one cell to at least `v`, queueing it when it changes.
fn raise(l: &mut Vec<u8>, q: &mut VecDeque<(usize, usize, usize, u8)>, dm: &Dims, x: usize, y: usize, z: usize, v: u8)
    requires
        seeded(old(l)@, old(q)@, *dm),
        dm.inside((x as int, y as int, z as int)),
    ensures
        seeded(final(l)@, final(q)@, *dm),
        final(l)@ == old(l)@.update(dm.at((x as int, y as int, z as int)), max_int(old(l)@[dm.at((x as int, y as int, z as int))] as int, v as int) as u8),
{
    proof {
        lemma_grid_idx_bounds(dm.sx as int, dm.sy as int, dm.sz as int, x as int, y as int, z as int);
    }
    let i = (y * dm.sz + z) * dm.sx + x;
    if l[i] < v {
        let ghost l0 = l@;
        let ghost q0 = q@;
        l.set(i, v);
        q.push_back((x, y, z, v));
        proof {
            let e = (x, y, z, v);
            assert forall|j: int| 0 <= j < q@.len() implies entry_valid(l@, *dm, #[trigger] q@[j]) by {
                if j < q0.len() {
                    assert(entry_valid(l0, *dm, q0[j]));
                    let t = q0[j];
                    lemma_grid_idx_bounds(dm.sx as int, dm.sy as int, dm.sz as int, t.0 as int, t.1 as int, t.2 as int);
                } else {
                    assert(q@[j] == e);
                }
            }
            assert forall|x2: usize, y2: usize, z2: usize|
                dm.inside((x2 as int, y2 as int, z2 as int)) implies #[trigger] l@[dm.at((x2 as int, y2 as int, z2 as int))] == 0
                    || q@.contains((x2, y2, z2, l@[dm.at((x2 as int, y2 as int, z2 as int))])) by {
                let j = dm.at((x2 as int, y2 as int, z2 as int));
                lemma_grid_idx_bounds(dm.sx as int, dm.sy as int, dm.sz as int, x2 as int, y2 as int, z2 as int);
                lemma_contains_push(q0, e, (x2, y2, z2, l0[j]));
                if j == i as int {
                    crate::grid::lemma_grid_idx_inj(dm.sx as int, dm.sy as int, dm.sz as int, x as int, y as int, z as int, x2 as int, y2 as int, z2 as int);
                }
            }
        }
    } else {
        assert(l@ =~= l@.update(i as int, l@[i as int]));
    }
}

/// Beacon seeds so far, each waiting in the queue with its direction unless zero.
pub open spec fn bseeded(l: Seq<u8>, dirs: Seq<u8>, q: Seq<(usize, usize, usize, u8, u8)>, dm: Dims) -> bool {
    &&& l.len() == dm.n()
    &&& dirs.len() == dm.n()
    &&& dm.n() <= usize::MAX
    &&& beam_queue_ok(l, q, dm)
    &&& forall|x: usize, y: usize, z: usize|
        dm.inside((x as int, y as int, z as int)) ==> #[trigger] l[dm.at((x as int, y as int, z as int))] == 0
            || q.contains((x, y, z, l[dm.at((x as int, y as int, z as int))], dirs[dm.at((x as int, y as int, z as int))]))
}

/// Raises one cell's beacon light to `v` with direction `dir` when `v` is strictly brighter.
fn raise_beam(
    l: &mut Vec<u8>,
    dirs: &mut Vec<u8>,
    q: &mut VecDeque<(usize, usize, usize, u8, u8)>,
    dm: &Dims,
    x: usize,
    y: usize,
    z: usize,
    v: u8,
    dir: u8,
    Ghost(st): Ghost<spec_fn((int, int, int), int, u8) -> bool>,
)
    requires
        bseeded(old(l)@, old(dirs)@, old(q)@, *dm),
        dm.inside((x as int, y as int, z as int)),
        beam_entries_start(old(q)@, st),
        st((x as int, y as int, z as int), v as int, dir),
    ensures
        bseeded(final(l)@, final(dirs)@, final(q)@, *dm),
        beam_entries_start(final(q)@, st),
        ({
            let i = dm.at((x as int, y as int, z as int));
            if old(l)@[i] < v {
                final(l)@ == old(l)@.update(i, v) && final(dirs)@ == old(dirs)@.update(i, dir)
            } else {
                final(l)@ == old(l)@ && final(dirs)@ == old(dirs)@
            }
        }),
{
    proof {
        lemma_grid_idx_bounds(dm.sx as int, dm.sy as int, dm.sz as int, x as int, y as int, z as int);
    }
    let i = (y * dm.sz + z) * dm.sx + x;
    if l[i] < v {
        let ghost l0 = l@;
        let ghost d0 = dirs@;
        let ghost q0 = q@;
        l.set(i, v);
        dirs.set(i, dir);
        q.push_back((x, y, z, v, dir));
        proof {
            let e = (x, y, z, v, dir);
            assert forall|j: int| 0 <= j < q@.len() implies beam_entry_start(st, #[trigger] q@[j]) by {
                if j < q0.len() {
                    assert(q@[j] == q0[j]);
                } else {
                    assert(q@[j] == e);
                }
            }
            assert forall|j: int| 0 <= j < q@.len() implies beam_entry_valid(l@, *dm, #[trigger] q@[j]) by {
                if j < q0.len() {
                    assert(beam_entry_valid(l0, *dm, q0[j]));
                    let t = q0[j];
                    lemma_grid_idx_bounds(dm.sx as int, dm.sy as int, dm.sz as int, t.0 as int, t.1 as int, t.2 as int);
                } else {
                    assert(q@[j] == e);
                }
            }
            assert forall|x2: usize, y2: usize, z2: usize|
                dm.inside((x2 as int, y2 as int, z2 as int)) implies #[trigger] l@[dm.at((x2 as int, y2 as int, z2 as int))] == 0
                    || q@.contains((x2, y2, z2, l@[dm.at((x2 as int, y2 as int, z2 as int))], dirs@[dm.at((x2 as int, y2 as int, z2 as int))])) by {
                let j = dm.at((x2 as int, y2 as int, z2 as int));
                lemma_grid_idx_bounds(dm.sx as int, dm.sy as int, dm.sz as int, x2 as int, y2 as int, z2 as int);
                lemma_contains_push(q0, e, (x2, y2, z2, l0[j], d0[j]));
                if j == i as int {
                    crate::grid::lemma_grid_idx_inj(dm.sx as int, dm.sy as int, dm.sz as int, x as int, y as int, z as int, x2 as int, y2 as int, z2 as int);
                }
            }
        }
    }
}


/// Skylight reaches `(x, y, z)` straight from the top of the chunk: every
/// cell from `y` up lets skylight pass.
pub open spec fn col_open(buf: &ChunkBuf, reg: &BlockRegistry, x: int, y: int, z: int) -> bool {
    forall|y2: int| y <= y2 < buf.sy ==> #[trigger] sky_passes(reg, buf.spec_local(x, y2, z))
}

pub open spec fn sky_col_seed(buf: &ChunkBuf, reg: &BlockRegistry, x: int, y: int, z: int) -> int {
    if col_open(buf, reg, x, y, z) { 255 } else { 0 }
}

pub open spec fn dims_of(buf: &ChunkBuf) -> Dims {
    Dims { sx: buf.sx, sy: buf.sy, sz: buf.sz }
}

pub open spec fn col_done(x: int, y: int, z: int, cx: int, cy: int, cz: int) -> bool {
    z < cz || (z == cz && (x < cx || (x == cx && y >= cy)))
}

/// Skylight seeds from open columns: 255 down to the first cell that blocks skylight.
fn seed_sky_columns(buf: &ChunkBuf, reg: &BlockRegistry, dm: &Dims, air: u16) -> (r: (Vec<u8>, VecDeque<(usize, usize, usize, u8)>))
    requires
        buf.wf(),
        *dm == dims_of(buf),
        dm.sx * dm.sy <= usize::MAX,
        dm.n() <= usize::MAX,
        air == air_id(reg),
    ensures
        seeded(r.0@, r.1@, *dm),
        forall|x: int, y: int, z: int| #[trigger] dm.inside((x, y, z)) ==> r.0@[dm.at((x, y, z))] as int == sky_col_seed(buf, reg, x, y, z),
{
    proof {
        lemma_grid_size_parts(dm.sx as int, dm.sy as int, dm.sz as int);
    }
    let n = dm.sx * dm.sy * dm.sz;
    let mut l: Vec<u8> = vec![0; n];
    let mut q: VecDeque<(usize, usize, usize, u8)> = VecDeque::new();
    let sx = dm.sx;
    let sy = dm.sy;
    let sz = dm.sz;
    assert(l@ =~= Seq::new(n as nat, |i: int| 0u8));
    proof {
        assert forall|x2: int, y2: int, z2: int| #[trigger] dm.inside((x2, y2, z2)) implies l@[dm.at((x2, y2, z2))] == 0 by {
            lemma_grid_idx_bounds(sx as int, sy as int, sz as int, x2, y2, z2);
        }
        assert forall|x2: usize, y2: usize, z2: usize| dm.inside((x2 as int, y2 as int, z2 as int)) implies #[trigger] l@[dm.at((x2 as int, y2 as int, z2 as int))] == 0
            || q@.contains((x2, y2, z2, l@[dm.at((x2 as int, y2 as int, z2 as int))])) by {
            assert(dm.inside((x2 as int, y2 as int, z2 as int)));
        }
    }
    let mut z: usize = 0;
    while z < sz
        invariant
            buf.wf(),
            *dm == dims_of(buf),
            air == air_id(reg),
            sx == dm.sx && sy == dm.sy && sz == dm.sz,
            z <= sz,
            seeded(l@, q@, *dm),
            forall|x2: int, y2: int, z2: int| #[trigger] dm.inside((x2, y2, z2)) ==> l@[dm.at((x2, y2, z2))] as int == (if z2 < z && col_open(buf, reg, x2, y2, z2) { 255int } else { 0int }),
        decreases sz - z,
    {
        let mut x: usize = 0;
        while x < sx
            invariant
                buf.wf(),
                *dm == dims_of(buf),
                air == air_id(reg),
                sx == dm.sx && sy == dm.sy && sz == dm.sz,
                z < sz,
                x <= sx,
                seeded(l@, q@, *dm),
                forall|x2: int, y2: int, z2: int| #[trigger] dm.inside((x2, y2, z2)) ==> l@[dm.at((x2, y2, z2))] as int == (if (z2 < z || (z2 == z && x2 < x)) && col_open(buf, reg, x2, y2, z2) { 255int } else { 0int }),
            decreases sx - x,
        {
            let mut open_above = true;
            let mut y: usize = sy;
            while y > 0
                invariant
                    buf.wf(),
                    *dm == dims_of(buf),
                    air == air_id(reg),
                    sx == dm.sx && sy == dm.sy && sz == dm.sz,
                    z < sz,
                    x < sx,
                    y <= sy,
                    seeded(l@, q@, *dm),
                    open_above == col_open(buf, reg, x as int, y as int, z as int),
                    forall|x2: int, y2: int, z2: int| #[trigger] dm.inside((x2, y2, z2)) ==> l@[dm.at((x2, y2, z2))] as int == (if col_done(x2, y2, z2, x as int, y as int, z as int) && col_open(buf, reg, x2, y2, z2) { 255int } else { 0int }),
                decreases y,
            {
                y = y - 1;
                let b = buf.get_local(x, y, z);
                let ghost l0 = l@;
                let passes = passes_with(reg, air, b);
                proof {
                    assert forall|y2: int| y <= y2 < buf.sy implies #[trigger] sky_passes(reg, buf.spec_local(x as int, y2, z as int)) == (if y2 == y { passes } else { sky_passes(reg, buf.spec_local(x as int, y2, z as int)) }) by {}
                    assert(col_open(buf, reg, x as int, y as int, z as int) == (open_above && passes));
                }
                if open_above {
                    if passes {
                        raise(&mut l, &mut q, dm, x, y, z, 255);
                    } else {
                        // a blocking cell closes the column; it and everything below stay dark
                        open_above = false;
                    }
                }
                proof {
                    let ci = dm.at((x as int, y as int, z as int));
                    lemma_grid_idx_bounds(sx as int, sy as int, sz as int, x as int, y as int, z as int);
                    assert forall|x2: int, y2: int, z2: int| #[trigger] dm.inside((x2, y2, z2)) implies l@[dm.at((x2, y2, z2))] as int == (if col_done(x2, y2, z2, x as int, y as int, z as int) && col_open(buf, reg, x2, y2, z2) { 255int } else { 0int }) by {
                        lemma_grid_idx_bounds(sx as int, sy as int, sz as int, x2, y2, z2);
                        if dm.at((x2, y2, z2)) == ci {
                            crate::grid::lemma_grid_idx_inj(sx as int, sy as int, sz as int, x as int, y as int, z as int, x2, y2, z2);
                        } else {
                            assert(l0[dm.at((x2, y2, z2))] == l@[dm.at((x2, y2, z2))]);
                            if x2 == x && z2 == z && y2 == y {
                            }
                        }
                    }
                    if !passes {
                        assert(!col_open(buf, reg, x as int, y as int, z as int));
                    }
                }
            }
            x = x + 1;
        }
        z = z + 1;
    }
    (l, q)
}


pub open spec fn em_blk(buf: &ChunkBuf, reg: &BlockRegistry, x: int, y: int, z: int) -> int {
    let b = buf.spec_local(x, y, z);
    if is_beam(reg, b) { 0 } else { emission_of(reg, b) as int }
}

pub open spec fn em_bcn(buf: &ChunkBuf, reg: &BlockRegistry, x: int, y: int, z: int) -> int {
    let b = buf.spec_local(x, y, z);
    if is_beam(reg, b) { emission_of(reg, b) as int } else { 0 }
}

pub open spec fn em_done(x: int, y: int, z: int, cx: int, cy: int, cz: int) -> bool {
    z < cz || (z == cz && (y < cy || (y == cy && x < cx)))
}

pub open spec fn zeros(n: int) -> Seq<u8> {
    Seq::new(n as nat, |i: int| 0u8)
}

/// Seeds block light and beacon light from the emissive blocks of the chunk.
fn seed_emitters(buf: &ChunkBuf, reg: &BlockRegistry, dm: &Dims, Ghost(st): Ghost<spec_fn((int, int, int), int, u8) -> bool>) -> (r: (
    Vec<u8>,
    VecDeque<(usize, usize, usize, u8)>,
    Vec<u8>,
    Vec<u8>,
    VecDeque<(usize, usize, usize, u8, u8)>,
))
    requires
        buf.wf(),
        *dm == dims_of(buf),
        dm.sx * dm.sy <= usize::MAX,
        dm.n() <= usize::MAX,
        forall|x: int, y: int, z: int| #[trigger] dm.inside((x, y, z)) ==> st((x, y, z), em_bcn(buf, reg, x, y, z), 0u8),
    ensures
        seeded(r.0@, r.1@, *dm),
        bseeded(r.2@, r.3@, r.4@, *dm),
        beam_entries_start(r.4@, st),
        r.3@ == zeros(dm.n()),
        forall|x: int, y: int, z: int| #[trigger] dm.inside((x, y, z)) ==> {
            &&& r.0@[dm.at((x, y, z))] as int == em_blk(buf, reg, x, y, z)
            &&& r.2@[dm.at((x, y, z))] as int == em_bcn(buf, reg, x, y, z)
        },
{
    proof {
        lemma_grid_size_parts(dm.sx as int, dm.sy as int, dm.sz as int);
    }
    let n = dm.sx * dm.sy * dm.sz;
    let sx = dm.sx;
    let sy = dm.sy;
    let sz = dm.sz;
    let mut blk: Vec<u8> = vec![0; n];
    let mut bcn: Vec<u8> = vec![0; n];
    let mut dirs: Vec<u8> = vec![0; n];
    let mut q: VecDeque<(usize, usize, usize, u8)> = VecDeque::new();
    let mut qb: VecDeque<(usize, usize, usize, u8, u8)> = VecDeque::new();
    assert(blk@ =~= zeros(n as int));
    assert(bcn@ =~= zeros(n as int));
    assert(dirs@ =~= zeros(n as int));
    proof {
        assert forall|x2: int, y2: int, z2: int| #[trigger] dm.inside((x2, y2, z2)) implies blk@[dm.at((x2, y2, z2))] == 0 && bcn@[dm.at((x2, y2, z2))] == 0 by {
            lemma_grid_idx_bounds(sx as int, sy as int, sz as int, x2, y2, z2);
        }
        assert forall|x2: usize, y2: usize, z2: usize| dm.inside((x2 as int, y2 as int, z2 as int)) implies #[trigger] blk@[dm.at((x2 as int, y2 as int, z2 as int))] == 0
            || q@.contains((x2, y2, z2, blk@[dm.at((x2 as int, y2 as int, z2 as int))])) by {
            assert(dm.inside((x2 as int, y2 as int, z2 as int)));
        }
        assert forall|x2: usize, y2: usize, z2: usize| dm.inside((x2 as int, y2 as int, z2 as int)) implies #[trigger] bcn@[dm.at((x2 as int, y2 as int, z2 as int))] == 0
            || qb@.contains((x2, y2, z2, bcn@[dm.at((x2 as int, y2 as int, z2 as int))], dirs@[dm.at((x2 as int, y2 as int, z2 as int))])) by {
            assert(dm.inside((x2 as int, y2 as int, z2 as int)));
        }
    }
    let mut z: usize = 0;
    while z < sz
        invariant
            buf.wf(),
            *dm == dims_of(buf),
            sx == dm.sx && sy == dm.sy && sz == dm.sz,
            z <= sz,
            seeded(blk@, q@, *dm),
            bseeded(bcn@, dirs@, qb@, *dm),
            beam_entries_start(qb@, st),
            forall|x: int, y: int, z: int| #[trigger] dm.inside((x, y, z)) ==> st((x, y, z), em_bcn(buf, reg, x, y, z), 0u8),
            dirs@ == zeros(dm.n()),
            forall|x2: int, y2: int, z2: int| #[trigger] dm.inside((x2, y2, z2)) ==> {
                &&& blk@[dm.at((x2, y2, z2))] as int == (if em_done(x2, y2, z2, 0, 0, z as int) { em_blk(buf, reg, x2, y2, z2) } else { 0 })
                &&& bcn@[dm.at((x2, y2, z2))] as int == (if em_done(x2, y2, z2, 0, 0, z as int) { em_bcn(buf, reg, x2, y2, z2) } else { 0 })
            },
        decreases sz - z,
    {
        let mut y: usize = 0;
        while y < sy
            invariant
                buf.wf(),
                *dm == dims_of(buf),
                sx == dm.sx && sy == dm.sy && sz == dm.sz,
                z < sz,
                y <= sy,
                seeded(blk@, q@, *dm),
                bseeded(bcn@, dirs@, qb@, *dm),
                beam_entries_start(qb@, st),
                forall|x: int, y: int, z: int| #[trigger] dm.inside((x, y, z)) ==> st((x, y, z), em_bcn(buf, reg, x, y, z), 0u8),
                dirs@ == zeros(dm.n()),
                forall|x2: int, y2: int, z2: int| #[trigger] dm.inside((x2, y2, z2)) ==> {
                    &&& blk@[dm.at((x2, y2, z2))] as int == (if em_done(x2, y2, z2, 0, y as int, z as int) { em_blk(buf, reg, x2, y2, z2) } else { 0 })
                    &&& bcn@[dm.at((x2, y2, z2))] as int == (if em_done(x2, y2, z2, 0, y as int, z as int) { em_bcn(buf, reg, x2, y2, z2) } else { 0 })
                },
            decreases sy - y,
        {
            let mut x: usize = 0;
            while x < sx
                invariant
                    buf.wf(),
                    *dm == dims_of(buf),
                    sx == dm.sx && sy == dm.sy && sz == dm.sz,
                    z < sz,
                    y < sy,
                    x <= sx,
                    seeded(blk@, q@, *dm),
                    bseeded(bcn@, dirs@, qb@, *dm),
                    beam_entries_start(qb@, st),
                    forall|x: int, y: int, z: int| #[trigger] dm.inside((x, y, z)) ==> st((x, y, z), em_bcn(buf, reg, x, y, z), 0u8),
                    dirs@ == zeros(dm.n()),
                    forall|x2: int, y2: int, z2: int| #[trigger] dm.inside((x2, y2, z2)) ==> {
                        &&& blk@[dm.at((x2, y2, z2))] as int == (if em_done(x2, y2, z2, x as int, y as int, z as int) { em_blk(buf, reg, x2, y2, z2) } else { 0 })
                        &&& bcn@[dm.at((x2, y2, z2))] as int == (if em_done(x2, y2, z2, x as int, y as int, z as int) { em_bcn(buf, reg, x2, y2, z2) } else { 0 })
                    },
                decreases sx - x,
            {
                let b = buf.get_local(x, y, z);
                let (em, beam) = light_info(reg, b);
                let ghost blk0 = blk@;
                let ghost bcn0 = bcn@;
                let ghost ci = dm.at((x as int, y as int, z as int));
                proof {
                    lemma_grid_idx_bounds(sx as int, sy as int, sz as int, x as int, y as int, z as int);
                }
                if em > 0 {
                    if beam {
                        proof {
                            assert(dm.inside((x as int, y as int, z as int)));
                            assert(em as int == em_bcn(buf, reg, x as int, y as int, z as int));
                        }
                        raise_beam(&mut bcn, &mut dirs, &mut qb, dm, x, y, z, em, 0, Ghost(st));
                        assert(dirs@ =~= zeros(dm.n()));
                    } else {
                        raise(&mut blk, &mut q, dm, x, y, z, em);
                    }
                }
                proof {
                    assert forall|x2: int, y2: int, z2: int| #[trigger] dm.inside((x2, y2, z2)) implies {
                        &&& blk@[dm.at((x2, y2, z2))] as int == (if em_done(x2, y2, z2, x as int + 1, y as int, z as int) { em_blk(buf, reg, x2, y2, z2) } else { 0 })
                        &&& bcn@[dm.at((x2, y2, z2))] as int == (if em_done(x2, y2, z2, x as int + 1, y as int, z as int) { em_bcn(buf, reg, x2, y2, z2) } else { 0 })
                    } by {
                        lemma_grid_idx_bounds(sx as int, sy as int, sz as int, x2, y2, z2);
                        if dm.at((x2, y2, z2)) == ci {
                            crate::grid::lemma_grid_idx_inj(sx as int, sy as int, sz as int, x as int, y as int, z as int, x2, y2, z2);
                        } else {
                            assert(blk0[dm.at((x2, y2, z2))] == blk@[dm.at((x2, y2, z2))]);
                            assert(bcn0[dm.at((x2, y2, z2))] == bcn@[dm.at((x2, y2, z2))]);
                        }
                    }
                }
                x = x + 1;
            }
            y = y + 1;
        }
        z = z + 1;
    }
    (blk, q, bcn, dirs, qb)
}


/// Brightest stored emitter of the given kind at `(x, y, z)`, or 0.
pub open spec fn dyn_max(es: Seq<(usize, usize, usize, u8, bool)>, x: int, y: int, z: int, beam: bool) -> int
    decreases es.len(),
{
    if es.len() == 0 {
        0
    } else {
        let e = es.last();
        let rest = dyn_max(es.drop_last(), x, y, z, beam);
        if e.0 == x && e.1 == y && e.2 == z && e.4 == beam { max_int(rest, e.3 as int) } else { rest }
    }
}

/// Raises cells to the levels of the chunk's stored emitters.
fn seed_dynamic(
    es: &Vec<(usize, usize, usize, u8, bool)>,
    dm: &Dims,
    blk: &mut Vec<u8>,
    q: &mut VecDeque<(usize, usize, usize, u8)>,
    bcn: &mut Vec<u8>,
    dirs: &mut Vec<u8>,
    qb: &mut VecDeque<(usize, usize, usize, u8, u8)>,
    Ghost(st): Ghost<spec_fn((int, int, int), int, u8) -> bool>,
)
    requires
        seeded(old(blk)@, old(q)@, *dm),
        bseeded(old(bcn)@, old(dirs)@, old(qb)@, *dm),
        old(dirs)@ == zeros(dm.n()),
        beam_entries_start(old(qb)@, st),
        forall|k: int| 0 <= k < es@.len() && es@[k].4 && dm.inside((es@[k].0 as int, es@[k].1 as int, es@[k].2 as int))
            ==> st((es@[k].0 as int, es@[k].1 as int, es@[k].2 as int), #[trigger] es@[k].3 as int, 0u8),
    ensures
        seeded(final(blk)@, final(q)@, *dm),
        bseeded(final(bcn)@, final(dirs)@, final(qb)@, *dm),
        beam_entries_start(final(qb)@, st),
        final(dirs)@ == zeros(dm.n()),
        forall|x: int, y: int, z: int| #[trigger] dm.inside((x, y, z)) ==> {
            &&& final(blk)@[dm.at((x, y, z))] as int == max_int(old(blk)@[dm.at((x, y, z))] as int, dyn_max(es@, x, y, z, false))
            &&& final(bcn)@[dm.at((x, y, z))] as int == max_int(old(bcn)@[dm.at((x, y, z))] as int, dyn_max(es@, x, y, z, true))
        },
{
    let ghost blk_start = blk@;
    let ghost bcn_start = bcn@;
    let mut i: usize = 0;
    proof {
        assert forall|x: int, y: int, z: int| #[trigger] dm.inside((x, y, z)) implies {
            &&& blk@[dm.at((x, y, z))] as int == max_int(blk_start[dm.at((x, y, z))] as int, dyn_max(es@.take(0), x, y, z, false))
            &&& bcn@[dm.at((x, y, z))] as int == max_int(bcn_start[dm.at((x, y, z))] as int, dyn_max(es@.take(0), x, y, z, true))
        } by {
            assert(es@.take(0).len() == 0);
        }
    }
    while i < es.len()
        invariant
            i <= es@.len(),
            seeded(blk@, q@, *dm),
            bseeded(bcn@, dirs@, qb@, *dm),
            beam_entries_start(qb@, st),
            forall|k: int| 0 <= k < es@.len() && es@[k].4 && dm.inside((es@[k].0 as int, es@[k].1 as int, es@[k].2 as int))
                ==> st((es@[k].0 as int, es@[k].1 as int, es@[k].2 as int), #[trigger] es@[k].3 as int, 0u8),
            dirs@ == zeros(dm.n()),
            forall|x: int, y: int, z: int| #[trigger] dm.inside((x, y, z)) ==> {
                &&& blk@[dm.at((x, y, z))] as int == max_int(blk_start[dm.at((x, y, z))] as int, dyn_max(es@.take(i as int), x, y, z, false))
                &&& bcn@[dm.at((x, y, z))] as int == max_int(bcn_start[dm.at((x, y, z))] as int, dyn_max(es@.take(i as int), x, y, z, true))
            },
        decreases es@.len() - i,
    {
        let (x, y, z, level, is_beacon) = es[i];
        let ghost blk0 = blk@;
        let ghost bcn0 = bcn@;
        if x < dm.sx && y < dm.sy && z < dm.sz {
            proof {
                lemma_grid_idx_bounds(dm.sx as int, dm.sy as int, dm.sz as int, x as int, y as int, z as int);
            }
            if is_beacon {
                proof {
                    assert(es@[i as int].3 as int == level as int);
                }
                raise_beam(bcn, dirs, qb, dm, x, y, z, level, 0, Ghost(st));
                assert(dirs@ =~= zeros(dm.n()));
            } else {
                raise(blk, q, dm, x, y, z, level);
            }
        }
        proof {
            assert(es@.take(i as int + 1).drop_last() =~= es@.take(i as int));
            assert(es@.take(i as int + 1).last() == es@[i as int]);
            assert forall|x2: int, y2: int, z2: int| #[trigger] dm.inside((x2, y2, z2)) implies {
                &&& blk@[dm.at((x2, y2, z2))] as int == max_int(blk_start[dm.at((x2, y2, z2))] as int, dyn_max(es@.take(i as int + 1), x2, y2, z2, false))
                &&& bcn@[dm.at((x2, y2, z2))] as int == max_int(bcn_start[dm.at((x2, y2, z2))] as int, dyn_max(es@.take(i as int + 1), x2, y2, z2, true))
            } by {
                lemma_grid_idx_bounds(dm.sx as int, dm.sy as int, dm.sz as int, x2, y2, z2);
                if dm.inside((x as int, y as int, z as int)) {
                    lemma_grid_idx_bounds(dm.sx as int, dm.sy as int, dm.sz as int, x as int, y as int, z as int);
                    if dm.at((x2, y2, z2)) == dm.at((x as int, y as int, z as int)) {
                        crate::grid::lemma_grid_idx_inj(dm.sx as int, dm.sy as int, dm.sz as int, x as int, y as int, z as int, x2, y2, z2);
                    }
                }
            }
        }
        i = i + 1;
    }
    assert(es@.take(es@.len() as int) =~= es@);
}


/// Light planes sampled from the four horizontal neighbors of a chunk.
/// Planes facing x are indexed `y * sz + z`; planes facing z are indexed `y * sx + x`.
pub struct NeighborBorders {
    /// neighbor's +X block light entering our -X face
    pub xn: Option<Vec<u8>>,
    /// neighbor's -X block light entering our +X face
    pub xp: Option<Vec<u8>>,
    /// neighbor's +Z block light entering our -Z face
    pub zn: Option<Vec<u8>>,
    /// neighbor's -Z block light entering our +Z face
    pub zp: Option<Vec<u8>>,
    pub sk_xn: Option<Vec<u8>>,
    pub sk_xp: Option<Vec<u8>>,
    pub sk_zn: Option<Vec<u8>>,
    pub sk_zp: Option<Vec<u8>>,
    pub bcn_xn: Option<Vec<u8>>,
    pub bcn_xp: Option<Vec<u8>>,
    pub bcn_zn: Option<Vec<u8>>,
    pub bcn_zp: Option<Vec<u8>>,
    pub bcn_dir_xn: Option<Vec<u8>>,
    pub bcn_dir_xp: Option<Vec<u8>>,
    pub bcn_dir_zn: Option<Vec<u8>>,
    pub bcn_dir_zp: Option<Vec<u8>>,
}

/// Contents of the neighbor planes, in the field order of `NeighborBorders`.
pub struct NbPlanes {
    pub xn: Option<Seq<u8>>,
    pub xp: Option<Seq<u8>>,
    pub zn: Option<Seq<u8>>,
    pub zp: Option<Seq<u8>>,
    pub sk_xn: Option<Seq<u8>>,
    pub sk_xp: Option<Seq<u8>>,
    pub sk_zn: Option<Seq<u8>>,
    pub sk_zp: Option<Seq<u8>>,
    pub bcn_xn: Option<Seq<u8>>,
    pub bcn_xp: Option<Seq<u8>>,
    pub bcn_zn: Option<Seq<u8>>,
    pub bcn_zp: Option<Seq<u8>>,
    pub bcn_dir_xn: Option<Seq<u8>>,
    pub bcn_dir_xp: Option<Seq<u8>>,
    pub bcn_dir_zn: Option<Seq<u8>>,
    pub bcn_dir_zp: Option<Seq<u8>>,
}

impl NeighborBorders {
    pub open spec fn planes_view(&self) -> NbPlanes {
        NbPlanes {
            xn: opt_view(&self.xn),
            xp: opt_view(&self.xp),
            zn: opt_view(&self.zn),
            zp: opt_view(&self.zp),
            sk_xn: opt_view(&self.sk_xn),
            sk_xp: opt_view(&self.sk_xp),
            sk_zn: opt_view(&self.sk_zn),
            sk_zp: opt_view(&self.sk_zp),
            bcn_xn: opt_view(&self.bcn_xn),
            bcn_xp: opt_view(&self.bcn_xp),
            bcn_zn: opt_view(&self.bcn_zn),
            bcn_zp: opt_view(&self.bcn_zp),
            bcn_dir_xn: opt_view(&self.bcn_dir_xn),
            bcn_dir_xp: opt_view(&self.bcn_dir_xp),
            bcn_dir_zn: opt_view(&self.bcn_dir_zn),
            bcn_dir_zp: opt_view(&self.bcn_dir_zp),
        }
    }

    /// No neighbor planes at all.
    pub fn empty(_sx: usize, _sy: usize, _sz: usize) -> (r: NeighborBorders)
        ensures
            r.all_none(),
    {
        NeighborBorders {
            xn: None,
            xp: None,
            zn: None,
            zp: None,
            sk_xn: None,
            sk_xp: None,
            sk_zn: None,
            sk_zp: None,
            bcn_xn: None,
            bcn_xp: None,
            bcn_zn: None,
            bcn_zp: None,
            bcn_dir_xn: None,
            bcn_dir_xp: None,
            bcn_dir_zn: None,
            bcn_dir_zp: None,
        }
    }

    pub open spec fn all_none(&self) -> bool {
        &&& self.xn is None && self.xp is None && self.zn is None && self.zp is None
        &&& self.sk_xn is None && self.sk_xp is None && self.sk_zn is None && self.sk_zp is None
        &&& self.bcn_xn is None && self.bcn_xp is None && self.bcn_zn is None && self.bcn_zp is None
        &&& self.bcn_dir_xn is None && self.bcn_dir_xp is None && self.bcn_dir_zn is None && self.bcn_dir_zp is None
    }

    /// Every light plane present has the length of its face.
    pub open spec fn fits(&self, dm: Dims) -> bool {
        &&& plane_fits(&self.xn, dm, 0) && plane_fits(&self.xp, dm, 1)
        &&& plane_fits(&self.zn, dm, 2) && plane_fits(&self.zp, dm, 3)
        &&& plane_fits(&self.sk_xn, dm, 0) && plane_fits(&self.sk_xp, dm, 1)
        &&& plane_fits(&self.sk_zn, dm, 2) && plane_fits(&self.sk_zp, dm, 3)
        &&& plane_fits(&self.bcn_xn, dm, 0) && plane_fits(&self.bcn_xp, dm, 1)
        &&& plane_fits(&self.bcn_zn, dm, 2) && plane_fits(&self.bcn_zp, dm, 3)
    }
}

/// Sides in order: 0 = -X (x = 0), 1 = +X (x = sx - 1), 2 = -Z (z = 0), 3 = +Z (z = sz - 1).
pub open spec fn plane_len(dm: Dims, side: int) -> int {
    if side < 2 { dm.sy * dm.sz } else { dm.sy * dm.sx }
}

pub open spec fn plane_fits(p: &Option<Vec<u8>>, dm: Dims, side: int) -> bool {
    p matches Some(v) ==> v@.len() >= plane_len(dm, side)
}

pub open spec fn on_side(dm: Dims, side: int, x: int, z: int) -> bool {
    if side == 0 {
        x == 0
    } else if side == 1 {
        x == dm.sx - 1
    } else if side == 2 {
        z == 0
    } else {
        z == dm.sz - 1
    }
}

pub open spec fn plane_pos(dm: Dims, side: int, x: int, y: int, z: int) -> int {
    if side < 2 { y * dm.sz + z } else { y * dm.sx + x }
}

/// Light entering through a plane cell after one step of attenuation 32.
pub open spec fn plane_val(p: Option<Seq<u8>>, i: int) -> int {
    match p {
        Some(v) => if v[i] as int - 32 > 0 { v[i] as int - 32 } else { 0 },
        None => 0,
    }
}

pub open spec fn side_val(p: Option<Seq<u8>>, dm: Dims, side: int, x: int, y: int, z: int) -> int {
    if on_side(dm, side, x, z) { plane_val(p, plane_pos(dm, side, x, y, z)) } else { 0 }
}

/// Raises the cells of one face to the light entering from a neighbor plane.
fn seed_plane(l: &mut Vec<u8>, q: &mut VecDeque<(usize, usize, usize, u8)>, p: &Option<Vec<u8>>, dm: &Dims, side: usize)
    requires
        seeded(old(l)@, old(q)@, *dm),
        plane_fits(p, *dm, side as int),
        side < 4,
        dm.sx > 0 && dm.sy > 0 && dm.sz > 0,
    ensures
        seeded(final(l)@, final(q)@, *dm),
        forall|x: int, y: int, z: int| #[trigger] dm.inside((x, y, z)) ==>
            final(l)@[dm.at((x, y, z))] as int == max_int(old(l)@[dm.at((x, y, z))] as int, side_val(opt_view(p), *dm, side as int, x, y, z)),
{
    let ghost l_start = l@;
    let sx = dm.sx;
    let sy = dm.sy;
    let sz = dm.sz;
    assert(sy * sz <= sx * sy * sz && sy * sx <= sx * sy * sz) by (nonlinear_arith)
        requires sx > 0, sy > 0, sz > 0;
    match p {
        None => {},
        Some(plane) => {
            // outer runs along the face, inner along y
            let outer_n = if side < 2 { sz } else { sx };
            let mut o: usize = 0;
            while o < outer_n
                invariant
                    sx == dm.sx && sy == dm.sy && sz == dm.sz,
                    sx > 0 && sy > 0 && sz > 0,
                    sy * sz <= dm.n() && sy * sx <= dm.n(),
                    side < 4,
                    outer_n == (if side < 2 { sz } else { sx }),
                    o <= outer_n,
                    plane@.len() >= plane_len(*dm, side as int),
                    seeded(l@, q@, *dm),
                    forall|x: int, y: int, z: int| #[trigger] dm.inside((x, y, z)) ==>
                        l@[dm.at((x, y, z))] as int == max_int(l_start[dm.at((x, y, z))] as int,
                            if (if side < 2 { z } else { x }) < o { side_val(Some(plane@), *dm, side as int, x, y, z) } else { 0 }),
                decreases outer_n - o,
            {
                let mut y: usize = 0;
                while y < sy
                    invariant
                        sx == dm.sx && sy == dm.sy && sz == dm.sz,
                        sx > 0 && sy > 0 && sz > 0,
                        sy * sz <= dm.n() && sy * sx <= dm.n(),
                        side < 4,
                        outer_n == (if side < 2 { sz } else { sx }),
                        o < outer_n,
                        y <= sy,
                        plane@.len() >= plane_len(*dm, side as int),
                        seeded(l@, q@, *dm),
                        forall|x: int, y2: int, z: int| #[trigger] dm.inside((x, y2, z)) ==>
                            l@[dm.at((x, y2, z))] as int == max_int(l_start[dm.at((x, y2, z))] as int,
                                if (if side < 2 { z } else { x }) < o || ((if side < 2 { z } else { x }) == o && y2 < y) { side_val(Some(plane@), *dm, side as int, x, y2, z) } else { 0 }),
                    decreases sy - y,
                {
                    let (cx, cz, pi) = if side < 2 {
                        proof {
                            lemma_grid_idx_bounds(1, sy as int, sz as int, 0, y as int, o as int);
                        }
                        (if side == 0 { 0 } else { sx - 1 }, o, y * sz + o)
                    } else {
                        proof {
                            lemma_grid_idx_bounds(1, sy as int, sx as int, 0, y as int, o as int);
                        }
                        (o, if side == 2 { 0 } else { sz - 1 }, y * sx + o)
                    };
                    let v = plane[pi] as i32 - 32;
                    let ghost l0 = l@;
                    let ghost ci = dm.at((cx as int, y as int, cz as int));
                    if v > 0 {
                        raise(l, q, dm, cx, y, cz, v as u8);
                    }
                    proof {
                        lemma_grid_idx_bounds(sx as int, sy as int, sz as int, cx as int, y as int, cz as int);
                        assert forall|x: int, y2: int, z: int| #[trigger] dm.inside((x, y2, z)) implies
                            l@[dm.at((x, y2, z))] as int == max_int(l_start[dm.at((x, y2, z))] as int,
                                if (if side < 2 { z } else { x }) < o || ((if side < 2 { z } else { x }) == o && y2 < y + 1) { side_val(Some(plane@), *dm, side as int, x, y2, z) } else { 0 }) by {
                            lemma_grid_idx_bounds(sx as int, sy as int, sz as int, x, y2, z);
                            if dm.at((x, y2, z)) == ci {
                                crate::grid::lemma_grid_idx_inj(sx as int, sy as int, sz as int, cx as int, y as int, cz as int, x, y2, z);
                            } else {
                                assert(l0[dm.at((x, y2, z))] == l@[dm.at((x, y2, z))]);
                            }
                        }
                    }
                    y = y + 1;
                }
                o = o + 1;
            }
        },
    }
}


/// Direction recorded for a plane cell; 5 (non-cardinal) when absent.
pub open spec fn dir_at(dp: Option<Seq<u8>>, i: int) -> u8 {
    match dp {
        Some(d) => if 0 <= i < d.len() { d[i] } else { 5 },
        None => 5,
    }
}

/// Beacon light entering through a plane cell: attenuation 1 when it
/// travels along a cardinal direction, 32 otherwise; with its direction.
pub open spec fn beam_cand(p: Option<Seq<u8>>, dp: Option<Seq<u8>>, i: int) -> (int, u8) {
    match p {
        Some(v) => {
            let dir = dir_at(dp, i);
            let a: int = if 1 <= dir <= 4 { 1 } else { 32 };
            if v[i] as int - a > 0 { (v[i] as int - a, dir) } else { (0, 0) }
        },
        None => (0, 0),
    }
}

pub open spec fn side_cand(p: Option<Seq<u8>>, dp: Option<Seq<u8>>, dm: Dims, side: int, x: int, y: int, z: int) -> (int, u8) {
    if on_side(dm, side, x, z) { beam_cand(p, dp, plane_pos(dm, side, x, y, z)) } else { (0, 0) }
}

/// A candidate replaces the current beacon seed only when strictly brighter.
pub open spec fn combine(prev: (int, u8), c: (int, u8)) -> (int, u8) {
    if c.0 > prev.0 { c } else { prev }
}

/// A lit candidate is allowed to start at its cell.
pub open spec fn cand_start_ok(st: spec_fn((int, int, int), int, u8) -> bool, c: (int, int, int), cand: (int, u8)) -> bool {
    cand.0 > 0 ==> st(c, cand.0, cand.1)
}

/// Light `cand.0` with direction `cand.1` is that candidate or dimmer.
pub open spec fn from_cand(cand: (int, u8), v: int, d: u8) -> bool {
    cand.0 > 0 && v <= cand.0 && d == cand.1
}

/// Beacon light `v` with direction `d` may start spreading from `(x, y, z)`:
/// as a source there (direction 0), no brighter than the brightest beacon
/// emitter of the cell, or as light entering from a neighbor plane, no
/// brighter than it enters and in the direction the plane records.
pub open spec fn bcn_start(buf: &ChunkBuf, reg: &BlockRegistry, es: Seq<(usize, usize, usize, u8, bool)>, nb: NbPlanes, x: int, y: int, z: int, v: int, d: u8) -> bool {
    let dm = dims_of(buf);
    ||| d == 0 && v <= max_int(em_bcn(buf, reg, x, y, z), dyn_max(es, x, y, z, true))
    ||| from_cand(side_cand(nb.bcn_xn, nb.bcn_dir_xn, dm, 0, x, y, z), v, d)
    ||| from_cand(side_cand(nb.bcn_xp, nb.bcn_dir_xp, dm, 1, x, y, z), v, d)
    ||| from_cand(side_cand(nb.bcn_zn, nb.bcn_dir_zn, dm, 2, x, y, z), v, d)
    ||| from_cand(side_cand(nb.bcn_zp, nb.bcn_dir_zp, dm, 3, x, y, z), v, d)
}

/// A stored emitter's level is at most the brightest of its kind at its cell.
proof fn lemma_dyn_max_ge(es: Seq<(usize, usize, usize, u8, bool)>, k: int)
    requires
        0 <= k < es.len(),
    ensures
        dyn_max(es, es[k].0 as int, es[k].1 as int, es[k].2 as int, es[k].4) >= es[k].3,
    decreases es.len(),
{
    if k < es.len() - 1 {
        lemma_dyn_max_ge(es.drop_last(), k);
        assert(es.drop_last()[k] == es[k]);
    }
}

/// A cell's beacon seed is a light allowed to start there, within a byte.
proof fn lemma_seed_starts(buf: &ChunkBuf, reg: &BlockRegistry, es: Seq<(usize, usize, usize, u8, bool)>, nb: NbPlanes, x: int, y: int, z: int)
    ensures
        0 <= bcn_seed(buf, reg, es, nb, x, y, z).0 <= 255,
        bcn_start(buf, reg, es, nb, x, y, z, bcn_seed(buf, reg, es, nb, x, y, z).0, bcn_seed(buf, reg, es, nb, x, y, z).1),
{
    let dm = dims_of(buf);
    lemma_dyn_max_bounds(es, x, y, z, true);
    let b = (max_int(em_bcn(buf, reg, x, y, z), dyn_max(es, x, y, z, true)), 0u8);
    let c0 = side_cand(nb.bcn_xn, nb.bcn_dir_xn, dm, 0, x, y, z);
    let c1 = side_cand(nb.bcn_xp, nb.bcn_dir_xp, dm, 1, x, y, z);
    let c2 = side_cand(nb.bcn_zn, nb.bcn_dir_zn, dm, 2, x, y, z);
    let c3 = side_cand(nb.bcn_zp, nb.bcn_dir_zp, dm, 3, x, y, z);
    assert(c0.0 <= 255 && c1.0 <= 255 && c2.0 <= 255 && c3.0 <= 255);
    assert(0 <= b.0 <= 255);
}

/// The beacon starts of a chunk as a predicate on cell, light and direction.
pub open spec fn bcn_starts(buf: &ChunkBuf, reg: &BlockRegistry, es: Seq<(usize, usize, usize, u8, bool)>, nb: NbPlanes) -> spec_fn((int, int, int), int, u8) -> bool {
    |c: (int, int, int), v: int, d: u8| bcn_start(buf, reg, es, nb, c.0, c.1, c.2, v, d)
}

fn seed_beam_plane(
    l: &mut Vec<u8>,
    dirs: &mut Vec<u8>,
    q: &mut VecDeque<(usize, usize, usize, u8, u8)>,
    p: &Option<Vec<u8>>,
    dp: &Option<Vec<u8>>,
    dm: &Dims,
    side: usize,
    Ghost(st): Ghost<spec_fn((int, int, int), int, u8) -> bool>,
)
    requires
        bseeded(old(l)@, old(dirs)@, old(q)@, *dm),
        plane_fits(p, *dm, side as int),
        side < 4,
        dm.sx > 0 && dm.sy > 0 && dm.sz > 0,
        beam_entries_start(old(q)@, st),
        forall|x: int, y: int, z: int| #[trigger] dm.inside((x, y, z)) ==>
            cand_start_ok(st, (x, y, z), side_cand(opt_view(p), opt_view(dp), *dm, side as int, x, y, z)),
    ensures
        bseeded(final(l)@, final(dirs)@, final(q)@, *dm),
        beam_entries_start(final(q)@, st),
        forall|x: int, y: int, z: int| #[trigger] dm.inside((x, y, z)) ==>
            (final(l)@[dm.at((x, y, z))] as int, final(dirs)@[dm.at((x, y, z))]) == combine(
                (old(l)@[dm.at((x, y, z))] as int, old(dirs)@[dm.at((x, y, z))]),
                side_cand(opt_view(p), opt_view(dp), *dm, side as int, x, y, z)),
{
    let ghost l_start = l@;
    let ghost d_start = dirs@;
    let sx = dm.sx;
    let sy = dm.sy;
    let sz = dm.sz;
    assert(sy * sz <= sx * sy * sz && sy * sx <= sx * sy * sz) by (nonlinear_arith)
        requires sx > 0, sy > 0, sz > 0;
    match p {
        None => {
            assert forall|x: int, y: int, z: int| #[trigger] dm.inside((x, y, z)) implies
                (l@[dm.at((x, y, z))] as int, dirs@[dm.at((x, y, z))]) == combine(
                    (l_start[dm.at((x, y, z))] as int, d_start[dm.at((x, y, z))]),
                    side_cand(opt_view(p), opt_view(dp), *dm, side as int, x, y, z)) by {}
        },
        Some(plane) => {
            let outer_n = if side < 2 { sz } else { sx };
            let mut o: usize = 0;
            while o < outer_n
                invariant
                    sx == dm.sx && sy == dm.sy && sz == dm.sz,
                    sx > 0 && sy > 0 && sz > 0,
                    sy * sz <= dm.n() && sy * sx <= dm.n(),
                    side < 4,
                    outer_n == (if side < 2 { sz } else { sx }),
                    o <= outer_n,
                    plane@.len() >= plane_len(*dm, side as int),
                    *p == Some(*plane),
                    bseeded(l@, dirs@, q@, *dm),
                    beam_entries_start(q@, st),
                    forall|x: int, y: int, z: int| #[trigger] dm.inside((x, y, z)) ==>
                        cand_start_ok(st, (x, y, z), side_cand(Some(plane@), opt_view(dp), *dm, side as int, x, y, z)),
                    forall|x: int, y: int, z: int| #[trigger] dm.inside((x, y, z)) ==>
                        (l@[dm.at((x, y, z))] as int, dirs@[dm.at((x, y, z))]) == combine(
                            (l_start[dm.at((x, y, z))] as int, d_start[dm.at((x, y, z))]),
                            if (if side < 2 { z } else { x }) < o { side_cand(Some(plane@), opt_view(dp), *dm, side as int, x, y, z) } else { (0int, 0u8) }),
                decreases outer_n - o,
            {
                let mut y: usize = 0;
                while y < sy
                    invariant
                        sx == dm.sx && sy == dm.sy && sz == dm.sz,
                        sx > 0 && sy > 0 && sz > 0,
                        sy * sz <= dm.n() && sy * sx <= dm.n(),
                        side < 4,
                        outer_n == (if side < 2 { sz } else { sx }),
                        o < outer_n,
                        y <= sy,
                        plane@.len() >= plane_len(*dm, side as int),
                        bseeded(l@, dirs@, q@, *dm),
                        beam_entries_start(q@, st),
                        forall|x: int, y: int, z: int| #[trigger] dm.inside((x, y, z)) ==>
                            cand_start_ok(st, (x, y, z), side_cand(Some(plane@), opt_view(dp), *dm, side as int, x, y, z)),
                        forall|x: int, y2: int, z: int| #[trigger] dm.inside((x, y2, z)) ==>
                            (l@[dm.at((x, y2, z))] as int, dirs@[dm.at((x, y2, z))]) == combine(
                                (l_start[dm.at((x, y2, z))] as int, d_start[dm.at((x, y2, z))]),
                                if (if side < 2 { z } else { x }) < o || ((if side < 2 { z } else { x }) == o && y2 < y) { side_cand(Some(plane@), opt_view(dp), *dm, side as int, x, y2, z) } else { (0int, 0u8) }),
                    decreases sy - y,
                {
                    let (cx, cz, pi) = if side < 2 {
                        proof {
                            lemma_grid_idx_bounds(1, sy as int, sz as int, 0, y as int, o as int);
                        }
                        (if side == 0 { 0 } else { sx - 1 }, o, y * sz + o)
                    } else {
                        proof {
                            lemma_grid_idx_bounds(1, sy as int, sx as int, 0, y as int, o as int);
                        }
                        (o, if side == 2 { 0 } else { sz - 1 }, y * sx + o)
                    };
                    let orig_v = plane[pi];
                    let dir: u8 = match dp {
                        Some(d) => if pi < d.len() { d[pi] } else { 5 },
                        None => 5,
                    };
                    let atten: i32 = match dir {
                        1 | 2 | 3 | 4 => 1,
                        _ => 32,
                    };
                    let v = orig_v as i32 - atten;
                    let ghost l0 = l@;
                    let ghost d0 = dirs@;
                    let ghost ci = dm.at((cx as int, y as int, cz as int));
                    if v > 0 {
                        proof {
                            assert(dm.inside((cx as int, y as int, cz as int)));
                            assert(on_side(*dm, side as int, cx as int, cz as int));
                            assert(plane_pos(*dm, side as int, cx as int, y as int, cz as int) == pi as int);
                            assert(side_cand(Some(plane@), opt_view(dp), *dm, side as int, cx as int, y as int, cz as int) == (v as int, dir));
                        }
                        raise_beam(l, dirs, q, dm, cx, y, cz, v as u8, dir, Ghost(st));
                    }
                    proof {
                        lemma_grid_idx_bounds(sx as int, sy as int, sz as int, cx as int, y as int, cz as int);
                        assert forall|x: int, y2: int, z: int| #[trigger] dm.inside((x, y2, z)) implies
                            (l@[dm.at((x, y2, z))] as int, dirs@[dm.at((x, y2, z))]) == combine(
                                (l_start[dm.at((x, y2, z))] as int, d_start[dm.at((x, y2, z))]),
                                if (if side < 2 { z } else { x }) < o || ((if side < 2 { z } else { x }) == o && y2 < y + 1) { side_cand(Some(plane@), opt_view(dp), *dm, side as int, x, y2, z) } else { (0int, 0u8) }) by {
                            lemma_grid_idx_bounds(sx as int, sy as int, sz as int, x, y2, z);
                            if dm.at((x, y2, z)) == ci {
                                crate::grid::lemma_grid_idx_inj(sx as int, sy as int, sz as int, cx as int, y as int, cz as int, x, y2, z);
                            } else {
                                assert(l0[dm.at((x, y2, z))] == l@[dm.at((x, y2, z))]);
                                assert(d0[dm.at((x, y2, z))] == dirs@[dm.at((x, y2, z))]);
                            }
                        }
                    }
                    y = y + 1;
                }
                o = o + 1;
            }
        },
    }
}


/// Skylight seed of a cell: open column light, raised by the neighbor skylight planes.
pub open spec fn sky_seed(buf: &ChunkBuf, reg: &BlockRegistry, nb: NbPlanes, x: int, y: int, z: int) -> int {
    let dm = dims_of(buf);
    max_int(max_int(max_int(max_int(sky_col_seed(buf, reg, x, y, z),
        side_val(nb.sk_xn, dm, 0, x, y, z)),
        side_val(nb.sk_xp, dm, 1, x, y, z)),
        side_val(nb.sk_zn, dm, 2, x, y, z)),
        side_val(nb.sk_zp, dm, 3, x, y, z))
}

/// Block light seed: emission of a non-beam block, stored emitters, neighbor block-light planes.
pub open spec fn blk_seed(buf: &ChunkBuf, reg: &BlockRegistry, es: Seq<(usize, usize, usize, u8, bool)>, nb: NbPlanes, x: int, y: int, z: int) -> int {
    let dm = dims_of(buf);
    max_int(max_int(max_int(max_int(max_int(em_blk(buf, reg, x, y, z), dyn_max(es, x, y, z, false)),
        side_val(nb.xn, dm, 0, x, y, z)),
        side_val(nb.xp, dm, 1, x, y, z)),
        side_val(nb.zn, dm, 2, x, y, z)),
        side_val(nb.zp, dm, 3, x, y, z))
}

/// Beacon seed and its direction: beam blocks and stored beacons start as
/// sources (direction 0); neighbor beacon planes then replace a seed only
/// when strictly brighter, in the order -X, +X, -Z, +Z.
pub open spec fn bcn_seed(buf: &ChunkBuf, reg: &BlockRegistry, es: Seq<(usize, usize, usize, u8, bool)>, nb: NbPlanes, x: int, y: int, z: int) -> (int, u8) {
    let dm = dims_of(buf);
    combine(combine(combine(combine((max_int(em_bcn(buf, reg, x, y, z), dyn_max(es, x, y, z, true)), 0u8),
        side_cand(nb.bcn_xn, nb.bcn_dir_xn, dm, 0, x, y, z)),
        side_cand(nb.bcn_xp, nb.bcn_dir_xp, dm, 1, x, y, z)),
        side_cand(nb.bcn_zn, nb.bcn_dir_zn, dm, 2, x, y, z)),
        side_cand(nb.bcn_zp, nb.bcn_dir_zp, dm, 3, x, y, z))
}

pub open spec fn cell_seq(dm: Dims, f: spec_fn(int, int, int) -> u8) -> Seq<u8> {
    Seq::new(dm.n() as nat, |i: int| f(crate::grid::cell_of(dm.sx as int, dm.sz as int, i).0, crate::grid::cell_of(dm.sx as int, dm.sz as int, i).1, crate::grid::cell_of(dm.sx as int, dm.sz as int, i).2))
}

pub open spec fn sky_seeds(buf: &ChunkBuf, reg: &BlockRegistry, nb: NbPlanes) -> Seq<u8> {
    cell_seq(dims_of(buf), |x: int, y: int, z: int| sky_seed(buf, reg, nb, x, y, z) as u8)
}

pub open spec fn blk_seeds(buf: &ChunkBuf, reg: &BlockRegistry, es: Seq<(usize, usize, usize, u8, bool)>, nb: NbPlanes) -> Seq<u8> {
    cell_seq(dims_of(buf), |x: int, y: int, z: int| blk_seed(buf, reg, es, nb, x, y, z) as u8)
}

pub open spec fn bcn_seeds(buf: &ChunkBuf, reg: &BlockRegistry, es: Seq<(usize, usize, usize, u8, bool)>, nb: NbPlanes) -> Seq<u8> {
    cell_seq(dims_of(buf), |x: int, y: int, z: int| bcn_seed(buf, reg, es, nb, x, y, z).0 as u8)
}

pub open spec fn bcn_seed_dirs(buf: &ChunkBuf, reg: &BlockRegistry, es: Seq<(usize, usize, usize, u8, bool)>, nb: NbPlanes) -> Seq<u8> {
    cell_seq(dims_of(buf), |x: int, y: int, z: int| bcn_seed(buf, reg, es, nb, x, y, z).1)
}

/// Light spreads through air only.
pub open spec fn open_mask(buf: &ChunkBuf, reg: &BlockRegistry) -> Seq<bool> {
    Seq::new(buf.blocks@.len(), |i: int| is_air(reg, buf.blocks@[i]))
}

proof fn lemma_cell_seq(l: Seq<u8>, dm: Dims, f: spec_fn(int, int, int) -> u8)
    requires
        l.len() == dm.n(),
        forall|x: int, y: int, z: int| #[trigger] dm.inside((x, y, z)) ==> l[dm.at((x, y, z))] == f(x, y, z),
    ensures
        l == cell_seq(dm, f),
{
    assert forall|i: int| 0 <= i < l.len() implies #[trigger] l[i] == cell_seq(dm, f)[i] by {
        crate::grid::lemma_idx_of_cell(dm.sx as int, dm.sy as int, dm.sz as int, i);
        let c = crate::grid::cell_of(dm.sx as int, dm.sz as int, i);
        assert(dm.inside((c.0, c.1, c.2)));
    }
    assert(l =~= cell_seq(dm, f));
}

fn open_cells(buf: &ChunkBuf, air: u16, Ghost(reg): Ghost<&BlockRegistry>) -> (r: Vec<bool>)
    requires
        air == air_id(reg),
    ensures
        r@ == open_mask(buf, reg),
{
    let mut r: Vec<bool> = Vec::new();
    let mut i: usize = 0;
    while i < buf.blocks.len()
        invariant
            i <= buf.blocks@.len(),
            air == air_id(reg),
            r@ == open_mask(buf, reg).take(i as int),
        decreases buf.blocks@.len() - i,
    {
        r.push(buf.blocks[i].id == air);
        i = i + 1;
        assert(r@ =~= open_mask(buf, reg).take(i as int));
    }
    assert(r@ =~= open_mask(buf, reg));
    r
}

fn clone_plane(p: &Option<Vec<u8>>) -> (r: Option<Vec<u8>>)
    ensures
        opt_view(&r) == opt_view(p),
{
    match p {
        Some(v) => Some(v.clone()),
        None => None,
    }
}

pub open spec fn planes_seq(nb: NbPlanes) -> Seq<Option<Seq<u8>>> {
    seq![
        nb.xn, nb.xp, nb.zn, nb.zp,
        nb.sk_xn, nb.sk_xp, nb.sk_zn, nb.sk_zp,
        nb.bcn_xn, nb.bcn_xp, nb.bcn_zn, nb.bcn_zp,
        nb.bcn_dir_xn, nb.bcn_dir_xp, nb.bcn_dir_zn, nb.bcn_dir_zp,
    ]
}

impl LightGrid {
    /// The grid is the lighting of `buf` with stored emitters `es` and
    /// neighbor planes `nb`: skylight and block light are the least fields
    /// above their seeds closed under propagation through air (attenuation
    /// 32); beacon light lies above its seeds, is closed under directional
    /// propagation, keeps the seed direction where it kept the seed value,
    /// changes only in air, and lies below every field above its seeds that
    /// is closed with attenuation 1; the neighbor planes are kept for sampling.
    pub open spec fn lit_from(&self, buf: &ChunkBuf, reg: &BlockRegistry, es: Seq<(usize, usize, usize, u8, bool)>, nb: NbPlanes) -> bool {
        &&& self.wf()
        &&& self.dims() == (buf.sx, buf.sy, buf.sz)
        &&& least_closure(self.sky(), sky_seeds(buf, reg, nb), open_mask(buf, reg), dims_of(buf), 32)
        &&& least_closure(self.blk(), blk_seeds(buf, reg, es, nb), open_mask(buf, reg), dims_of(buf), 32)
        &&& beam_closed(self.bcn(), self.bcn_dir(), open_mask(buf, reg), dims_of(buf))
        &&& dominates(self.bcn(), bcn_seeds(buf, reg, es, nb))
        &&& below_every_closure(self.bcn(), bcn_seeds(buf, reg, es, nb), open_mask(buf, reg), dims_of(buf), 1)
        &&& forall|i: int| 0 <= i < self.bcn().len() && self.bcn()[i] == bcn_seeds(buf, reg, es, nb)[i] ==> #[trigger] self.bcn_dir()[i] == bcn_seed_dirs(buf, reg, es, nb)[i]
        &&& forall|i: int| 0 <= i < self.bcn().len() && self.bcn()[i] != bcn_seeds(buf, reg, es, nb)[i] ==> #[trigger] open_mask(buf, reg)[i]
        &&& beam_cells_reached(self.bcn(), self.bcn_dir(), bcn_starts(buf, reg, es, nb), open_mask(buf, reg), dims_of(buf))
        &&& self.planes() == planes_seq(nb)
    }

    /// Lights a chunk from its blocks, its stored emitters `es` and the
    /// neighbor planes `nb`.
    ///
    /// Skylight and block light are the least fields above their seeds that
    /// are closed under propagation through air with attenuation 32. Beacon
    /// light starts from its seeds and is closed under directional
    /// propagation (1 per step straight along a cardinal direction, 32
    /// otherwise) for the direction each cell records; each cell's light and
    /// direction come along a path of such steps through open cells from a
    /// light allowed to start (`bcn_starts`: a beacon source of the cell with
    /// direction 0, or light entering from a neighbor plane in the direction
    /// that plane records), and the light stays below every field above its
    /// seeds closed with attenuation 1.
    pub fn compute_from_parts(buf: &ChunkBuf, reg: &BlockRegistry, es: &Vec<(usize, usize, usize, u8, bool)>, nb: &NeighborBorders) -> (lg: LightGrid)
        requires
            buf.wf(),
            buf.sx > 0 && buf.sy > 0 && buf.sz > 0,
            buf.sx * buf.sy <= usize::MAX,
            buf.sx * buf.sy * buf.sz <= usize::MAX,
            nb.fits(dims_of(buf)),
        ensures
            lg.lit_from(buf, reg, es@, nb.planes_view()),
    {
        let dm = Dims { sx: buf.sx, sy: buf.sy, sz: buf.sz };
        let air = air_id_exec(reg);
        // skylight seeds: open columns
        let (mut sky, mut q_sky) = seed_sky_columns(buf, reg, &dm, air);
        // block and beacon emitters in the chunk, then stored emitters
        let ghost st = bcn_starts(buf, reg, es@, nb.planes_view());
        let ghost nbv = nb.planes_view();
        proof {
            assert forall|x: int, y: int, z: int| #[trigger] dm.inside((x, y, z)) implies st((x, y, z), em_bcn(buf, reg, x, y, z), 0u8) by {
                assert(bcn_start(buf, reg, es@, nbv, x, y, z, em_bcn(buf, reg, x, y, z), 0u8));
            }
            assert forall|k: int| 0 <= k < es@.len() && es@[k].4 && dm.inside((es@[k].0 as int, es@[k].1 as int, es@[k].2 as int))
                implies st((es@[k].0 as int, es@[k].1 as int, es@[k].2 as int), #[trigger] es@[k].3 as int, 0u8) by {
                let e = es@[k];
                lemma_dyn_max_ge(es@, k);
                assert(bcn_start(buf, reg, es@, nbv, e.0 as int, e.1 as int, e.2 as int, e.3 as int, 0u8));
            }
            assert forall|x: int, y: int, z: int| #[trigger] dm.inside((x, y, z)) implies
                cand_start_ok(st, (x, y, z), side_cand(opt_view(&nb.bcn_xn), opt_view(&nb.bcn_dir_xn), dm, 0, x, y, z))
                && cand_start_ok(st, (x, y, z), side_cand(opt_view(&nb.bcn_xp), opt_view(&nb.bcn_dir_xp), dm, 1, x, y, z))
                && cand_start_ok(st, (x, y, z), side_cand(opt_view(&nb.bcn_zn), opt_view(&nb.bcn_dir_zn), dm, 2, x, y, z))
                && cand_start_ok(st, (x, y, z), side_cand(opt_view(&nb.bcn_zp), opt_view(&nb.bcn_dir_zp), dm, 3, x, y, z)) by {
                let c0 = side_cand(opt_view(&nb.bcn_xn), opt_view(&nb.bcn_dir_xn), dm, 0, x, y, z);
                let c1 = side_cand(opt_view(&nb.bcn_xp), opt_view(&nb.bcn_dir_xp), dm, 1, x, y, z);
                let c2 = side_cand(opt_view(&nb.bcn_zn), opt_view(&nb.bcn_dir_zn), dm, 2, x, y, z);
                let c3 = side_cand(opt_view(&nb.bcn_zp), opt_view(&nb.bcn_dir_zp), dm, 3, x, y, z);
                if c0.0 > 0 { assert(bcn_start(buf, reg, es@, nbv, x, y, z, c0.0, c0.1)); }
                if c1.0 > 0 { assert(bcn_start(buf, reg, es@, nbv, x, y, z, c1.0, c1.1)); }
                if c2.0 > 0 { assert(bcn_start(buf, reg, es@, nbv, x, y, z, c2.0, c2.1)); }
                if c3.0 > 0 { assert(bcn_start(buf, reg, es@, nbv, x, y, z, c3.0, c3.1)); }
            }
        }
        let (mut blk, mut q, mut bcn, mut bdir, mut q_bcn) = seed_emitters(buf, reg, &dm, Ghost(st));
        let ghost blk_e = blk@;
        let ghost bcn_e = bcn@;
        seed_dynamic(es, &dm, &mut blk, &mut q, &mut bcn, &mut bdir, &mut q_bcn, Ghost(st));
        let ghost blk_d = blk@;
        let ghost bcn_d = bcn@;
        // neighbor block light
        seed_plane(&mut blk, &mut q, &nb.xn, &dm, 0);
        let ghost blk_0 = blk@;
        seed_plane(&mut blk, &mut q, &nb.xp, &dm, 1);
        let ghost blk_1 = blk@;
        seed_plane(&mut blk, &mut q, &nb.zn, &dm, 2);
        let ghost blk_2 = blk@;
        seed_plane(&mut blk, &mut q, &nb.zp, &dm, 3);
        // neighbor beacon light with explicit direction planes
        let ghost bd_d = bdir@;
        seed_beam_plane(&mut bcn, &mut bdir, &mut q_bcn, &nb.bcn_xn, &nb.bcn_dir_xn, &dm, 0, Ghost(st));
        let ghost bcn_0 = bcn@;
        let ghost bd_0 = bdir@;
        seed_beam_plane(&mut bcn, &mut bdir, &mut q_bcn, &nb.bcn_xp, &nb.bcn_dir_xp, &dm, 1, Ghost(st));
        let ghost bcn_1 = bcn@;
        let ghost bd_1 = bdir@;
        seed_beam_plane(&mut bcn, &mut bdir, &mut q_bcn, &nb.bcn_zn, &nb.bcn_dir_zn, &dm, 2, Ghost(st));
        let ghost bcn_2 = bcn@;
        let ghost bd_2 = bdir@;
        seed_beam_plane(&mut bcn, &mut bdir, &mut q_bcn, &nb.bcn_zp, &nb.bcn_dir_zp, &dm, 3, Ghost(st));
        // neighbor skylight
        let ghost sky_c = sky@;
        seed_plane(&mut sky, &mut q_sky, &nb.sk_xn, &dm, 0);
        let ghost sky_0 = sky@;
        seed_plane(&mut sky, &mut q_sky, &nb.sk_xp, &dm, 1);
        let ghost sky_1 = sky@;
        seed_plane(&mut sky, &mut q_sky, &nb.sk_zn, &dm, 2);
        let ghost sky_2 = sky@;
        seed_plane(&mut sky, &mut q_sky, &nb.sk_zp, &dm, 3);
        proof {
            assert forall|x: int, y: int, z: int| #[trigger] dm.inside((x, y, z)) implies sky@[dm.at((x, y, z))] == sky_seed(buf, reg, nb.planes_view(), x, y, z) as u8 by {
                assert(sky_c[dm.at((x, y, z))] as int == sky_col_seed(buf, reg, x, y, z));
                assert(sky_0[dm.at((x, y, z))] as int == max_int(sky_c[dm.at((x, y, z))] as int, side_val(opt_view(&nb.sk_xn), dm, 0, x, y, z)));
                assert(sky_1[dm.at((x, y, z))] as int == max_int(sky_0[dm.at((x, y, z))] as int, side_val(opt_view(&nb.sk_xp), dm, 1, x, y, z)));
                assert(sky_2[dm.at((x, y, z))] as int == max_int(sky_1[dm.at((x, y, z))] as int, side_val(opt_view(&nb.sk_zn), dm, 2, x, y, z)));
            }
            lemma_cell_seq(sky@, dm, |x: int, y: int, z: int| sky_seed(buf, reg, nb.planes_view(), x, y, z) as u8);
            assert forall|x: int, y: int, z: int| #[trigger] dm.inside((x, y, z)) implies blk@[dm.at((x, y, z))] == blk_seed(buf, reg, es@, nb.planes_view(), x, y, z) as u8 by {
                assert(blk_e[dm.at((x, y, z))] as int == em_blk(buf, reg, x, y, z));
                assert(blk_d[dm.at((x, y, z))] as int == max_int(blk_e[dm.at((x, y, z))] as int, dyn_max(es@, x, y, z, false)));
                assert(blk_0[dm.at((x, y, z))] as int == max_int(blk_d[dm.at((x, y, z))] as int, side_val(opt_view(&nb.xn), dm, 0, x, y, z)));
                assert(blk_1[dm.at((x, y, z))] as int == max_int(blk_0[dm.at((x, y, z))] as int, side_val(opt_view(&nb.xp), dm, 1, x, y, z)));
                assert(blk_2[dm.at((x, y, z))] as int == max_int(blk_1[dm.at((x, y, z))] as int, side_val(opt_view(&nb.zn), dm, 2, x, y, z)));
            }
            lemma_cell_seq(blk@, dm, |x: int, y: int, z: int| blk_seed(buf, reg, es@, nb.planes_view(), x, y, z) as u8);
            assert forall|x: int, y: int, z: int| #[trigger] dm.inside((x, y, z)) implies
                bcn@[dm.at((x, y, z))] == bcn_seed(buf, reg, es@, nb.planes_view(), x, y, z).0 as u8
                && bdir@[dm.at((x, y, z))] == bcn_seed(buf, reg, es@, nb.planes_view(), x, y, z).1 by {
                lemma_grid_idx_bounds(dm.sx as int, dm.sy as int, dm.sz as int, x, y, z);
                assert(bcn_e[dm.at((x, y, z))] as int == em_bcn(buf, reg, x, y, z));
                assert(bcn_d[dm.at((x, y, z))] as int == max_int(bcn_e[dm.at((x, y, z))] as int, dyn_max(es@, x, y, z, true)));
                assert(bd_d[dm.at((x, y, z))] == 0);
                assert((bcn_0[dm.at((x, y, z))] as int, bd_0[dm.at((x, y, z))]) == combine((bcn_d[dm.at((x, y, z))] as int, bd_d[dm.at((x, y, z))]), side_cand(opt_view(&nb.bcn_xn), opt_view(&nb.bcn_dir_xn), dm, 0, x, y, z)));
                assert((bcn_1[dm.at((x, y, z))] as int, bd_1[dm.at((x, y, z))]) == combine((bcn_0[dm.at((x, y, z))] as int, bd_0[dm.at((x, y, z))]), side_cand(opt_view(&nb.bcn_xp), opt_view(&nb.bcn_dir_xp), dm, 1, x, y, z)));
                assert((bcn_2[dm.at((x, y, z))] as int, bd_2[dm.at((x, y, z))]) == combine((bcn_1[dm.at((x, y, z))] as int, bd_1[dm.at((x, y, z))]), side_cand(opt_view(&nb.bcn_zn), opt_view(&nb.bcn_dir_zn), dm, 2, x, y, z)));
            }
            lemma_cell_seq(bcn@, dm, |x: int, y: int, z: int| bcn_seed(buf, reg, es@, nb.planes_view(), x, y, z).0 as u8);
            lemma_cell_seq(bdir@, dm, |x: int, y: int, z: int| bcn_seed(buf, reg, es@, nb.planes_view(), x, y, z).1);
            assert forall|x: int, y: int, z: int| #[trigger] dm.inside((x, y, z)) implies st((x, y, z), bcn@[dm.at((x, y, z))] as int, bdir@[dm.at((x, y, z))]) by {
                lemma_seed_starts(buf, reg, es@, nbv, x, y, z);
                assert(bcn@[dm.at((x, y, z))] == bcn_seed(buf, reg, es@, nbv, x, y, z).0 as u8);
                assert(bdir@[dm.at((x, y, z))] == bcn_seed(buf, reg, es@, nbv, x, y, z).1);
            }
            // zero cells are trivially saturated, the others wait in their queues
            assert forall|x: usize, y: usize, z: usize| dm.inside((x as int, y as int, z as int)) implies #[trigger] closed_at(sky@, open_mask(buf, reg), dm, x as int, y as int, z as int, 32)
                || q_sky@.contains((x, y, z, sky@[dm.at((x as int, y as int, z as int))])) by {
                assert(sky@[dm.at((x as int, y as int, z as int))] == 0 || q_sky@.contains((x, y, z, sky@[dm.at((x as int, y as int, z as int))])));
            }
            assert forall|x: usize, y: usize, z: usize| dm.inside((x as int, y as int, z as int)) implies #[trigger] closed_at(blk@, open_mask(buf, reg), dm, x as int, y as int, z as int, 32)
                || q@.contains((x, y, z, blk@[dm.at((x as int, y as int, z as int))])) by {
                assert(blk@[dm.at((x as int, y as int, z as int))] == 0 || q@.contains((x, y, z, blk@[dm.at((x as int, y as int, z as int))])));
            }
            assert forall|x: usize, y: usize, z: usize| dm.inside((x as int, y as int, z as int)) && None::<(usize, usize, usize)> != Some((x, y, z)) implies #[trigger] beam_closed_at(bcn@, bdir@, open_mask(buf, reg), dm, x as int, y as int, z as int)
                || q_bcn@.contains((x, y, z, bcn@[dm.at((x as int, y as int, z as int))], bdir@[dm.at((x as int, y as int, z as int))])) by {
                assert(bcn@[dm.at((x as int, y as int, z as int))] == 0 || q_bcn@.contains((x, y, z, bcn@[dm.at((x as int, y as int, z as int))], bdir@[dm.at((x as int, y as int, z as int))])));
            }
        }
        let open = open_cells(buf, air, Ghost(reg));
        let sky = propagate(sky, q_sky, &open, &dm, 32);
        let blk = propagate(blk, q, &open, &dm, 32);
        let (bcn, bdir) = propagate_beam(bcn, bdir, q_bcn, &open, &dm, Ghost(st));
        LightGrid {
            sx: buf.sx,
            sy: buf.sy,
            sz: buf.sz,
            skylight: sky,
            block_light: blk,
            beacon_light: bcn,
            beacon_dir: bdir,
            nb_xn_blk: clone_plane(&nb.xn),
            nb_xp_blk: clone_plane(&nb.xp),
            nb_zn_blk: clone_plane(&nb.zn),
            nb_zp_blk: clone_plane(&nb.zp),
            nb_xn_sky: clone_plane(&nb.sk_xn),
            nb_xp_sky: clone_plane(&nb.sk_xp),
            nb_zn_sky: clone_plane(&nb.sk_zn),
            nb_zp_sky: clone_plane(&nb.sk_zp),
            nb_xn_bcn: clone_plane(&nb.bcn_xn),
            nb_xp_bcn: clone_plane(&nb.bcn_xp),
            nb_zn_bcn: clone_plane(&nb.bcn_zn),
            nb_zp_bcn: clone_plane(&nb.bcn_zp),
            nb_xn_bcn_dir: clone_plane(&nb.bcn_dir_xn),
            nb_xp_bcn_dir: clone_plane(&nb.bcn_dir_xp),
            nb_zn_bcn_dir: clone_plane(&nb.bcn_dir_zn),
            nb_zp_bcn_dir: clone_plane(&nb.bcn_dir_zp),
        }
    }
}


pub open spec fn max3(a: u8, b: u8, c: u8) -> u8 {
    let ab = if a >= b { a } else { b };
    if ab >= c { ab } else { c }
}

pub open spec fn get_or0(p: Option<Seq<u8>>, i: int) -> u8 {
    match p {
        Some(v) => if 0 <= i < v.len() { v[i] } else { 0 },
        None => 0,
    }
}

/// Brightest of the three channels at a cell.
pub open spec fn cell_max(dims: (usize, usize, usize), sky: Seq<u8>, blk: Seq<u8>, bcn: Seq<u8>, x: int, y: int, z: int) -> u8 {
    let i = grid_idx(dims.0 as int, dims.2 as int, x, y, z);
    max3(sky[i], blk[i], bcn[i])
}

/// Light seen through one face of a cell; faces 0..6 are +Y, -Y, +X, -X, +Z, -Z.
/// Inside the chunk it is the brightest channel of the neighbor cell. Above
/// the chunk it is 255 and below it 0. Across a side it is the brightest
/// neighbor plane value, or the cell on this side of the seam when all are 0.
pub open spec fn face_light(dims: (usize, usize, usize), sky: Seq<u8>, blk: Seq<u8>, bcn: Seq<u8>, planes: Seq<Option<Seq<u8>>>, x: int, y: int, z: int, face: int) -> u8 {
    let (sx, sy, sz) = (dims.0 as int, dims.1 as int, dims.2 as int);
    let (dx, dy, dz) = if face == 0 { (0int, 1int, 0int) } else if face == 1 { (0, -1, 0) } else if face == 2 { (1, 0, 0) }
        else if face == 3 { (-1, 0, 0) } else if face == 4 { (0, 0, 1) } else if face == 5 { (0, 0, -1) } else { (0, 0, 0) };
    let (nx, ny, nz) = (x + dx, y + dy, z + dz);
    if in_grid(sx, sy, sz, nx, ny, nz) {
        cell_max(dims, sky, blk, bcn, nx, ny, nz)
    } else if face == 0 {
        255
    } else if face == 1 {
        0
    } else if face == 2 || face == 3 || face == 4 || face == 5 {
        let pi = if face == 2 || face == 3 { y * sz + z } else { y * sx + x };
        let (ks, kb, kc) = if face == 2 { (5int, 1int, 9int) } else if face == 3 { (4, 0, 8) } else if face == 4 { (7, 3, 11) } else { (6, 2, 10) };
        let m = max3(get_or0(planes[ks], pi), get_or0(planes[kb], pi), get_or0(planes[kc], pi));
        if m > 0 {
            m
        } else if face == 2 {
            cell_max(dims, sky, blk, bcn, sx - 1, y, z)
        } else if face == 3 {
            cell_max(dims, sky, blk, bcn, 0, y, z)
        } else if face == 4 {
            cell_max(dims, sky, blk, bcn, x, y, sz - 1)
        } else {
            cell_max(dims, sky, blk, bcn, x, y, 0)
        }
    } else {
        0
    }
}

fn max_u8(a: u8, b: u8) -> (r: u8)
    ensures
        r == (if a >= b { a } else { b }),
{
    if a >= b { a } else { b }
}

fn plane_get(p: &Option<Vec<u8>>, i: usize) -> (r: u8)
    ensures
        r == get_or0(opt_view(p), i as int),
{
    match p {
        Some(v) => if i < v.len() { v[i] } else { 0 },
        None => 0,
    }
}

impl LightGrid {
    fn cell_max_exec(&self, x: usize, y: usize, z: usize) -> (r: u8)
        requires
            self.wf(),
            in_grid(self.sx as int, self.sy as int, self.sz as int, x as int, y as int, z as int),
        ensures
            r == cell_max(self.dims(), self.sky(), self.blk(), self.bcn(), x as int, y as int, z as int),
    {
        proof {
            lemma_grid_idx_bounds(self.sx as int, self.sy as int, self.sz as int, x as int, y as int, z as int);
        }
        let i = (y * self.sz + z) * self.sx + x;
        max_u8(max_u8(self.skylight[i], self.block_light[i]), self.beacon_light[i])
    }

    /// Light for the face adjacent to local cell `(x, y, z)`;
    /// `face`: 0 = +Y, 1 = -Y, 2 = +X, 3 = -X, 4 = +Z, 5 = -Z.
    pub fn sample_face_local(&self, x: usize, y: usize, z: usize, face: usize) -> (r: u8)
        requires
            self.wf(),
            in_grid(self.dims().0 as int, self.dims().1 as int, self.dims().2 as int, x as int, y as int, z as int),
        ensures
            r == face_light(self.dims(), self.sky(), self.blk(), self.bcn(), self.planes(), x as int, y as int, z as int, face as int),
    {
        proof {
            lemma_grid_idx_bounds(self.sx as int, self.sy as int, self.sz as int, x as int, y as int, z as int);
            lemma_grid_size_parts(self.sx as int, self.sy as int, self.sz as int);
            lemma_grid_idx_bounds(1, self.sy as int, self.sx as int, 0, y as int, x as int);
        }
        // neighbor coordinates, or None when it lies outside the chunk
        let n: Option<(usize, usize, usize)> = match face {
            0 => if y + 1 < self.sy { Some((x, y + 1, z)) } else { None },
            1 => if y > 0 { Some((x, y - 1, z)) } else { None },
            2 => if x + 1 < self.sx { Some((x + 1, y, z)) } else { None },
            3 => if x > 0 { Some((x - 1, y, z)) } else { None },
            4 => if z + 1 < self.sz { Some((x, y, z + 1)) } else { None },
            5 => if z > 0 { Some((x, y, z - 1)) } else { None },
            _ => Some((x, y, z)),
        };
        match n {
            Some((nx, ny, nz)) => self.cell_max_exec(nx, ny, nz),
            None => {
                // outside this chunk: top and bottom keep simple fallbacks,
                // sides use the neighbor border planes when they carry light
                match face {
                    0 => 255,
                    1 => 0,
                    2 => {
                        let idxp = y * self.sz + z;
                        let m = max_u8(max_u8(plane_get(&self.nb_xp_sky, idxp), plane_get(&self.nb_xp_blk, idxp)), plane_get(&self.nb_xp_bcn, idxp));
                        if m > 0 { m } else { self.cell_max_exec(self.sx - 1, y, z) }
                    },
                    3 => {
                        let idxp = y * self.sz + z;
                        let m = max_u8(max_u8(plane_get(&self.nb_xn_sky, idxp), plane_get(&self.nb_xn_blk, idxp)), plane_get(&self.nb_xn_bcn, idxp));
                        if m > 0 { m } else { self.cell_max_exec(0, y, z) }
                    },
                    4 => {
                        let idxp = y * self.sx + x;
                        let m = max_u8(max_u8(plane_get(&self.nb_zp_sky, idxp), plane_get(&self.nb_zp_blk, idxp)), plane_get(&self.nb_zp_bcn, idxp));
                        if m > 0 { m } else { self.cell_max_exec(x, y, self.sz - 1) }
                    },
                    _ => {
                        let idxp = y * self.sx + x;
                        let m = max_u8(max_u8(plane_get(&self.nb_zn_sky, idxp), plane_get(&self.nb_zn_blk, idxp)), plane_get(&self.nb_zn_bcn, idxp));
                        if m > 0 { m } else { self.cell_max_exec(x, y, 0) }
                    },
                }
            },
        }
    }
}


/// Faces of a chunk: 0 = -X (x = 0), 1 = +X, 2 = -Z (z = 0), 3 = +Z, 4 = -Y (y = 0), 5 = +Y.
/// A face plane is indexed `a * width + b` with `(a, b)` = `(y, z)` for x faces,
/// `(y, x)` for z faces and `(z, x)` for y faces.
pub open spec fn face_width(dm: Dims, face: int) -> int {
    if face < 2 { dm.sz as int } else { dm.sx as int }
}

pub open spec fn face_height(dm: Dims, face: int) -> int {
    if face < 4 { dm.sy as int } else { dm.sz as int }
}

pub open spec fn face_cell(dm: Dims, face: int, a: int, b: int) -> (int, int, int) {
    if face == 0 {
        (0, a, b)
    } else if face == 1 {
        (dm.sx - 1, a, b)
    } else if face == 2 {
        (b, a, 0)
    } else if face == 3 {
        (b, a, dm.sz - 1)
    } else if face == 4 {
        (b, 0, a)
    } else {
        (b, dm.sy - 1, a)
    }
}

/// Value a border plane records for channel cell `i`: the light itself, or
/// for a direction plane with crossing code `k`, `k` when the light is a
/// source or already travels that way and 5 otherwise.
pub open spec fn border_val(ch: Seq<u8>, dir_code: Option<u8>, i: int) -> u8 {
    match dir_code {
        Some(k) => if ch[i] == k || ch[i] == 0 { k } else { 5u8 },
        None => ch[i],
    }
}

/// `p` holds, at `a * width + b`, the border value of the face cell `(a, b)`.
pub open spec fn plane_of(p: Seq<u8>, dm: Dims, face: int, ch: Seq<u8>, dir_code: Option<u8>) -> bool {
    &&& p.len() == face_height(dm, face) * face_width(dm, face)
    &&& forall|a: int, b: int| 0 <= a < face_height(dm, face) && 0 <= b < face_width(dm, face) ==>
        p[#[trigger] (a * face_width(dm, face) + b)] == border_val(ch, dir_code, dm.at(face_cell(dm, face, a, b)))
}

proof fn lemma_plane_pos(h: int, w: int, a: int, b: int, a2: int, b2: int)
    requires
        0 <= a < h,
        0 <= b < w,
        0 <= a2 < h,
        0 <= b2 < w,
        a2 < a || (a2 == a && b2 < b),
    ensures
        0 <= a2 * w + b2 < a * w + b,
{
    assert(0 <= a2 * w + b2 < a * w + b) by (nonlinear_arith)
        requires 0 <= a < h, 0 <= b < w, 0 <= a2 < h, 0 <= b2 < w, a2 < a || (a2 == a && b2 < b);
}

/// Reads one face of a light channel into a plane; with `dir_code` set,
/// maps beacon directions to that code when they cross the face
/// (source or already travelling that way) and to 5 otherwise.
fn face_plane(ch: &Vec<u8>, dm: &Dims, face: usize, dir_code: Option<u8>) -> (r: Vec<u8>)
    requires
        ch@.len() == dm.n(),
        dm.n() <= usize::MAX,
        dm.sx > 0 && dm.sy > 0 && dm.sz > 0,
        face < 6,
    ensures
        plane_of(r@, *dm, face as int, ch@, dir_code),
{
    let w = if face < 2 { dm.sz } else { dm.sx };
    let h = if face < 4 { dm.sy } else { dm.sz };
    proof {
        lemma_grid_size_parts(dm.sx as int, dm.sy as int, dm.sz as int);
        assert(h * w <= dm.n()) by (nonlinear_arith)
            requires
                dm.sx > 0, dm.sy > 0, dm.sz > 0,
                h == (if face < 4 { dm.sy } else { dm.sz }),
                w == (if face < 2 { dm.sz } else { dm.sx }),
                dm.n() == dm.sx * dm.sy * dm.sz;
    }
    let mut r: Vec<u8> = Vec::new();
    let mut a: usize = 0;
    while a < h
        invariant
            dm.sx > 0 && dm.sy > 0 && dm.sz > 0,
            ch@.len() == dm.n(),
            dm.n() <= usize::MAX,
            face < 6,
            w == face_width(*dm, face as int),
            h == face_height(*dm, face as int),
            h * w <= dm.n(),
            a <= h,
            r@.len() == a * w,
            forall|a2: int, b2: int| 0 <= a2 < a && 0 <= b2 < w ==> r@[#[trigger] (a2 * w + b2)] == border_val(ch@, dir_code, dm.at(face_cell(*dm, face as int, a2, b2))),
        decreases h - a,
    {
        let mut b: usize = 0;
        while b < w
            invariant
                dm.sx > 0 && dm.sy > 0 && dm.sz > 0,
                ch@.len() == dm.n(),
                dm.n() <= usize::MAX,
                face < 6,
                w == face_width(*dm, face as int),
                h == face_height(*dm, face as int),
                h * w <= dm.n(),
                a < h,
                b <= w,
                r@.len() == a * w + b,
                forall|a2: int, b2: int| 0 <= a2 < h && 0 <= b2 < w && (a2 < a || (a2 == a && b2 < b)) ==> r@[#[trigger] (a2 * w + b2)] == border_val(ch@, dir_code, dm.at(face_cell(*dm, face as int, a2, b2))),
            decreases w - b,
        {
            let (x, y, z) = match face {
                0 => (0, a, b),
                1 => (dm.sx - 1, a, b),
                2 => (b, a, 0),
                3 => (b, a, dm.sz - 1),
                4 => (b, 0, a),
                _ => (b, dm.sy - 1, a),
            };
            proof {
                lemma_grid_idx_bounds(dm.sx as int, dm.sy as int, dm.sz as int, x as int, y as int, z as int);
            }
            let i = (y * dm.sz + z) * dm.sx + x;
            let v = ch[i];
            let out = match dir_code {
                Some(k) => if v == k || v == 0 { k } else { 5 },
                None => v,
            };
            let ghost r0 = r@;
            proof {
                assert(a * w + b < h * w) by (nonlinear_arith)
                    requires a < h, b < w;
            }
            r.push(out);
            proof {
                assert forall|a2: int, b2: int| 0 <= a2 < h && 0 <= b2 < w && (a2 < a || (a2 == a && b2 < b + 1)) implies r@[#[trigger] (a2 * w + b2)] == border_val(ch@, dir_code, dm.at(face_cell(*dm, face as int, a2, b2))) by {
                    if a2 == a && b2 == b {
                        assert(face_cell(*dm, face as int, a as int, b as int) == (x as int, y as int, z as int));
                        assert(dm.at(face_cell(*dm, face as int, a as int, b as int)) == i as int);
                        assert(border_val(ch@, dir_code, i as int) == out);
                        assert(r@[a * w + b] == out);
                    } else {
                        lemma_plane_pos(h as int, w as int, a as int, b as int, a2, b2);
                        assert(r@[a2 * w + b2] == r0[a2 * w + b2]);
                    }
                }
            }
            b = b + 1;
        }
        proof {
            assert(r@.len() == (a + 1) * w) by (nonlinear_arith)
                requires r@.len() == a * w + w;
            assert forall|a2: int, b2: int| 0 <= a2 < a + 1 && 0 <= b2 < w implies r@[#[trigger] (a2 * w + b2)] == border_val(ch@, dir_code, dm.at(face_cell(*dm, face as int, a2, b2))) by {
                assert(0 <= a2 < h && 0 <= b2 < w && (a2 < a || (a2 == a && b2 < w)));
            }
        }
        a = a + 1;
    }
    r
}


/// Light on the six faces of a lit chunk, shared with its neighbors.
/// The x planes hold `sy * sz` values, the z planes `sy * sx`, the y planes `sz * sx`.
pub struct LightBorders {
    pub xn: Vec<u8>,
    pub xp: Vec<u8>,
    pub zn: Vec<u8>,
    pub zp: Vec<u8>,
    pub yn: Vec<u8>,
    pub yp: Vec<u8>,
    pub sk_xn: Vec<u8>,
    pub sk_xp: Vec<u8>,
    pub sk_zn: Vec<u8>,
    pub sk_zp: Vec<u8>,
    pub sk_yn: Vec<u8>,
    pub sk_yp: Vec<u8>,
    pub bcn_xn: Vec<u8>,
    pub bcn_xp: Vec<u8>,
    pub bcn_zn: Vec<u8>,
    pub bcn_zp: Vec<u8>,
    pub bcn_yn: Vec<u8>,
    pub bcn_yp: Vec<u8>,
    /// Direction codes of beacon light crossing the face (1..4 cardinal, 5 non-cardinal).
    pub bcn_dir_xn: Vec<u8>,
    pub bcn_dir_xp: Vec<u8>,
    pub bcn_dir_zn: Vec<u8>,
    pub bcn_dir_zp: Vec<u8>,
}

pub open spec fn filled(n: int, v: u8) -> Seq<u8> {
    Seq::new(n as nat, |i: int| v)
}

fn filled_vec(n: usize, v: u8) -> (r: Vec<u8>)
    ensures
        r@ == filled(n as int, v),
{
    let r = vec![v; n];
    assert(r@ =~= filled(n as int, v));
    r
}

fn same_plane(a: &Vec<u8>, b: &Vec<u8>) -> (r: bool)
    ensures
        r == (a@ == b@),
{
    if a.len() != b.len() {
        return false;
    }
    let mut i: usize = 0;
    while i < a.len()
        invariant
            a@.len() == b@.len(),
            i <= a@.len(),
            a@.take(i as int) == b@.take(i as int),
        decreases a@.len() - i,
    {
        if a[i] != b[i] {
            assert(a@[i as int] != b@[i as int]);
            return false;
        }
        assert(a@.take(i as int + 1) =~= a@.take(i as int).push(a@[i as int]));
        assert(b@.take(i as int + 1) =~= b@.take(i as int).push(b@[i as int]));
        i = i + 1;
    }
    assert(a@ =~= a@.take(i as int));
    assert(b@ =~= b@.take(i as int));
    true
}

impl LightBorders {
    /// All-dark borders; beacon direction planes start non-cardinal (5).
    pub fn new(sx: usize, sy: usize, sz: usize) -> (b: LightBorders)
        requires
            sy * sz <= usize::MAX,
            sy * sx <= usize::MAX,
            sx * sz <= usize::MAX,
        ensures
            b.xn@ == filled(sy * sz, 0) && b.xp@ == filled(sy * sz, 0),
            b.zn@ == filled(sy * sx, 0) && b.zp@ == filled(sy * sx, 0),
            b.yn@ == filled(sx * sz, 0) && b.yp@ == filled(sx * sz, 0),
            b.sk_xn@ == filled(sy * sz, 0) && b.sk_xp@ == filled(sy * sz, 0),
            b.sk_zn@ == filled(sy * sx, 0) && b.sk_zp@ == filled(sy * sx, 0),
            b.sk_yn@ == filled(sx * sz, 0) && b.sk_yp@ == filled(sx * sz, 0),
            b.bcn_xn@ == filled(sy * sz, 0) && b.bcn_xp@ == filled(sy * sz, 0),
            b.bcn_zn@ == filled(sy * sx, 0) && b.bcn_zp@ == filled(sy * sx, 0),
            b.bcn_yn@ == filled(sx * sz, 0) && b.bcn_yp@ == filled(sx * sz, 0),
            b.bcn_dir_xn@ == filled(sy * sz, 5) && b.bcn_dir_xp@ == filled(sy * sz, 5),
            b.bcn_dir_zn@ == filled(sy * sx, 5) && b.bcn_dir_zp@ == filled(sy * sx, 5),
    {
        LightBorders {
            xn: filled_vec(sy * sz, 0),
            xp: filled_vec(sy * sz, 0),
            zn: filled_vec(sy * sx, 0),
            zp: filled_vec(sy * sx, 0),
            yn: filled_vec(sx * sz, 0),
            yp: filled_vec(sx * sz, 0),
            sk_xn: filled_vec(sy * sz, 0),
            sk_xp: filled_vec(sy * sz, 0),
            sk_zn: filled_vec(sy * sx, 0),
            sk_zp: filled_vec(sy * sx, 0),
            sk_yn: filled_vec(sx * sz, 0),
            sk_yp: filled_vec(sx * sz, 0),
            bcn_xn: filled_vec(sy * sz, 0),
            bcn_xp: filled_vec(sy * sz, 0),
            bcn_zn: filled_vec(sy * sx, 0),
            bcn_zp: filled_vec(sy * sx, 0),
            bcn_yn: filled_vec(sx * sz, 0),
            bcn_yp: filled_vec(sx * sz, 0),
            bcn_dir_xn: filled_vec(sy * sz, 5),
            bcn_dir_xp: filled_vec(sy * sz, 5),
            bcn_dir_zn: filled_vec(sy * sx, 5),
            bcn_dir_zp: filled_vec(sy * sx, 5),
        }
    }

    /// The planes of a lit chunk: each plane holds the light of the chunk's
    /// cells on that face; a direction plane records the crossing code of
    /// its face where beacon light is a source or travels across it.
    pub open spec fn planes_of(&self, dm: Dims, sky: Seq<u8>, blk: Seq<u8>, bcn: Seq<u8>, dirs: Seq<u8>) -> bool {
        &&& plane_of(self.xn@, dm, 0, blk, None) && plane_of(self.xp@, dm, 1, blk, None)
        &&& plane_of(self.zn@, dm, 2, blk, None) && plane_of(self.zp@, dm, 3, blk, None)
        &&& plane_of(self.yn@, dm, 4, blk, None) && plane_of(self.yp@, dm, 5, blk, None)
        &&& plane_of(self.sk_xn@, dm, 0, sky, None) && plane_of(self.sk_xp@, dm, 1, sky, None)
        &&& plane_of(self.sk_zn@, dm, 2, sky, None) && plane_of(self.sk_zp@, dm, 3, sky, None)
        &&& plane_of(self.sk_yn@, dm, 4, sky, None) && plane_of(self.sk_yp@, dm, 5, sky, None)
        &&& plane_of(self.bcn_xn@, dm, 0, bcn, None) && plane_of(self.bcn_xp@, dm, 1, bcn, None)
        &&& plane_of(self.bcn_zn@, dm, 2, bcn, None) && plane_of(self.bcn_zp@, dm, 3, bcn, None)
        &&& plane_of(self.bcn_yn@, dm, 4, bcn, None) && plane_of(self.bcn_yp@, dm, 5, bcn, None)
        &&& plane_of(self.bcn_dir_xn@, dm, 0, dirs, Some(2u8)) && plane_of(self.bcn_dir_xp@, dm, 1, dirs, Some(1u8))
        &&& plane_of(self.bcn_dir_zn@, dm, 2, dirs, Some(4u8)) && plane_of(self.bcn_dir_zp@, dm, 3, dirs, Some(3u8))
    }

    /// Reads the six faces of a lit chunk.
    pub fn from_grid(grid: &LightGrid) -> (b: LightBorders)
        requires
            grid.wf(),
            grid.dims().0 > 0 && grid.dims().1 > 0 && grid.dims().2 > 0,
        ensures
            b.planes_of(Dims { sx: grid.dims().0, sy: grid.dims().1, sz: grid.dims().2 }, grid.sky(), grid.blk(), grid.bcn(), grid.bcn_dir()),
    {
        let dm = Dims { sx: grid.sx, sy: grid.sy, sz: grid.sz };
        LightBorders {
            xn: face_plane(&grid.block_light, &dm, 0, None),
            xp: face_plane(&grid.block_light, &dm, 1, None),
            zn: face_plane(&grid.block_light, &dm, 2, None),
            zp: face_plane(&grid.block_light, &dm, 3, None),
            yn: face_plane(&grid.block_light, &dm, 4, None),
            yp: face_plane(&grid.block_light, &dm, 5, None),
            sk_xn: face_plane(&grid.skylight, &dm, 0, None),
            sk_xp: face_plane(&grid.skylight, &dm, 1, None),
            sk_zn: face_plane(&grid.skylight, &dm, 2, None),
            sk_zp: face_plane(&grid.skylight, &dm, 3, None),
            sk_yn: face_plane(&grid.skylight, &dm, 4, None),
            sk_yp: face_plane(&grid.skylight, &dm, 5, None),
            bcn_xn: face_plane(&grid.beacon_light, &dm, 0, None),
            bcn_xp: face_plane(&grid.beacon_light, &dm, 1, None),
            bcn_zn: face_plane(&grid.beacon_light, &dm, 2, None),
            bcn_zp: face_plane(&grid.beacon_light, &dm, 3, None),
            bcn_yn: face_plane(&grid.beacon_light, &dm, 4, None),
            bcn_yp: face_plane(&grid.beacon_light, &dm, 5, None),
            bcn_dir_xn: face_plane(&grid.beacon_dir, &dm, 0, Some(2)),
            bcn_dir_xp: face_plane(&grid.beacon_dir, &dm, 1, Some(1)),
            bcn_dir_zn: face_plane(&grid.beacon_dir, &dm, 2, Some(4)),
            bcn_dir_zp: face_plane(&grid.beacon_dir, &dm, 3, Some(3)),
        }
    }

    pub open spec fn same_as(&self, o: &LightBorders) -> bool {
        &&& self.xn@ == o.xn@ && self.xp@ == o.xp@ && self.zn@ == o.zn@ && self.zp@ == o.zp@
        &&& self.yn@ == o.yn@ && self.yp@ == o.yp@
        &&& self.sk_xn@ == o.sk_xn@ && self.sk_xp@ == o.sk_xp@ && self.sk_zn@ == o.sk_zn@ && self.sk_zp@ == o.sk_zp@
        &&& self.sk_yn@ == o.sk_yn@ && self.sk_yp@ == o.sk_yp@
        &&& self.bcn_xn@ == o.bcn_xn@ && self.bcn_xp@ == o.bcn_xp@ && self.bcn_zn@ == o.bcn_zn@ && self.bcn_zp@ == o.bcn_zp@
        &&& self.bcn_yn@ == o.bcn_yn@ && self.bcn_yp@ == o.bcn_yp@
        &&& self.bcn_dir_xn@ == o.bcn_dir_xn@ && self.bcn_dir_xp@ == o.bcn_dir_xp@
        &&& self.bcn_dir_zn@ == o.bcn_dir_zn@ && self.bcn_dir_zp@ == o.bcn_dir_zp@
    }
}

/// Whether two sets of borders hold exactly the same planes.
pub fn equal_planes(a: &LightBorders, b: &LightBorders) -> (r: bool)
    ensures
        r == a.same_as(b),
{
    same_plane(&a.xn, &b.xn) && same_plane(&a.xp, &b.xp) && same_plane(&a.zn, &b.zn) && same_plane(&a.zp, &b.zp)
        && same_plane(&a.yn, &b.yn) && same_plane(&a.yp, &b.yp)
        && same_plane(&a.sk_xn, &b.sk_xn) && same_plane(&a.sk_xp, &b.sk_xp) && same_plane(&a.sk_zn, &b.sk_zn)
        && same_plane(&a.sk_zp, &b.sk_zp) && same_plane(&a.sk_yn, &b.sk_yn) && same_plane(&a.sk_yp, &b.sk_yp)
        && same_plane(&a.bcn_xn, &b.bcn_xn) && same_plane(&a.bcn_xp, &b.bcn_xp) && same_plane(&a.bcn_zn, &b.bcn_zn)
        && same_plane(&a.bcn_zp, &b.bcn_zp) && same_plane(&a.bcn_yn, &b.bcn_yn) && same_plane(&a.bcn_yp, &b.bcn_yp)
        && same_plane(&a.bcn_dir_xn, &b.bcn_dir_xn) && same_plane(&a.bcn_dir_xp, &b.bcn_dir_xp)
        && same_plane(&a.bcn_dir_zn, &b.bcn_dir_zn) && same_plane(&a.bcn_dir_zp, &b.bcn_dir_zp)
}


/// A stored emitter: local cell, level, and whether it is a beacon.
pub type Emitter = (usize, usize, usize, u8, bool);

pub open spec fn has_pos(list: Seq<Emitter>, x: usize, y: usize, z: usize) -> bool {
    exists|i: int| 0 <= i < list.len() && (#[trigger] list[i]).0 == x && list[i].1 == y && list[i].2 == z
}

/// Persisted lighting data per chunk: border planes and dynamic emitters.
pub struct LightingStore {
    sx: usize,
    sy: usize,
    sz: usize,
    borders: HashMapWithView<u64, LightBorders>,
    emitters: HashMapWithView<u64, Vec<Emitter>>,
}

impl LightingStore {
    pub closed spec fn dims(&self) -> Dims {
        Dims { sx: self.sx, sy: self.sy, sz: self.sz }
    }

    /// Stored borders of chunk `(cx, cz)`.
    pub closed spec fn border_at(&self, cx: i32, cz: i32) -> Option<LightBorders> {
        if self.borders@.contains_key(chunk_key(cx, cz)) {
            Some(self.borders@[chunk_key(cx, cz)])
        } else {
            None
        }
    }

    /// Stored emitters of chunk `(cx, cz)`, in insertion order.
    pub closed spec fn emitters_at(&self, cx: i32, cz: i32) -> Seq<Emitter> {
        if self.emitters@.contains_key(chunk_key(cx, cz)) {
            self.emitters@[chunk_key(cx, cz)]@
        } else {
            Seq::empty()
        }
    }

    pub fn new(sx: usize, sy: usize, sz: usize) -> (s: LightingStore)
        ensures
            s.dims() == (Dims { sx, sy, sz }),
            forall|cx: i32, cz: i32| #[trigger] s.border_at(cx, cz) is None && s.emitters_at(cx, cz).len() == 0,
    {
        broadcast use vstd::std_specs::hash::group_hash_axioms;
        LightingStore {
            sx,
            sy,
            sz,
            borders: HashMapWithView::new(),
            emitters: HashMapWithView::new(),
        }
    }

    /// Forgets everything stored for a chunk (called when it unloads).
    pub fn clear_chunk(&mut self, cx: i32, cz: i32)
        ensures
            final(self).dims() == old(self).dims(),
            final(self).border_at(cx, cz) is None,
            final(self).emitters_at(cx, cz).len() == 0,
            forall|a: i32, b: i32| (a, b) != (cx, cz) ==> #[trigger] final(self).border_at(a, b) == old(self).border_at(a, b)
                && final(self).emitters_at(a, b) == old(self).emitters_at(a, b),
    {
        let k = pack_chunk_key(cx, cz);
        self.borders.remove(&k);
        self.emitters.remove(&k);
        proof {
            assert forall|a: i32, b: i32| (a, b) != (cx, cz) implies #[trigger] self.border_at(a, b) == old(self).border_at(a, b)
                && self.emitters_at(a, b) == old(self).emitters_at(a, b) by {
                lemma_chunk_key_inj(a, b, cx, cz);
            }
        }
    }

    /// Borders that the four horizontal neighbors of `(cx, cz)` expose toward it.
    pub fn get_neighbor_borders(&self, cx: i32, cz: i32) -> (nb: NeighborBorders)
        requires
            i32::MIN < cx < i32::MAX,
            i32::MIN < cz < i32::MAX,
        ensures
            nb.planes_view() == self.neighbor_planes(cx, cz),
    {
        let mut nb = NeighborBorders::empty(self.sx, self.sy, self.sz);
        let kxn = pack_chunk_key(cx - 1, cz);
        let kxp = pack_chunk_key(cx + 1, cz);
        let kzn = pack_chunk_key(cx, cz - 1);
        let kzp = pack_chunk_key(cx, cz + 1);
        match self.borders.get(&kxn) {
            Some(b) => {
                nb.xn = Some(b.xp.clone());
                nb.sk_xn = Some(b.sk_xp.clone());
                nb.bcn_xn = Some(b.bcn_xp.clone());
                nb.bcn_dir_xn = Some(b.bcn_dir_xp.clone());
            },
            None => {},
        }
        match self.borders.get(&kxp) {
            Some(b) => {
                nb.xp = Some(b.xn.clone());
                nb.sk_xp = Some(b.sk_xn.clone());
                nb.bcn_xp = Some(b.bcn_xn.clone());
                nb.bcn_dir_xp = Some(b.bcn_dir_xn.clone());
            },
            None => {},
        }
        match self.borders.get(&kzn) {
            Some(b) => {
                nb.zn = Some(b.zp.clone());
                nb.sk_zn = Some(b.sk_zp.clone());
                nb.bcn_zn = Some(b.bcn_zp.clone());
                nb.bcn_dir_zn = Some(b.bcn_dir_zp.clone());
            },
            None => {},
        }
        match self.borders.get(&kzp) {
            Some(b) => {
                nb.zp = Some(b.zn.clone());
                nb.sk_zp = Some(b.sk_zn.clone());
                nb.bcn_zp = Some(b.bcn_zn.clone());
                nb.bcn_dir_zp = Some(b.bcn_dir_zn.clone());
            },
            None => {},
        }
        // vertical neighbors are not chunked; they stay absent
        nb
    }

    /// Stores the borders of a chunk; returns whether they differ from what was stored.
    pub fn update_borders(&mut self, cx: i32, cz: i32, lb: LightBorders) -> (changed: bool)
        ensures
            final(self).dims() == old(self).dims(),
            changed == (match old(self).border_at(cx, cz) {
                Some(b) => !b.same_as(&lb),
                None => true,
            }),
            final(self).border_at(cx, cz) == (if changed { Some(lb) } else { old(self).border_at(cx, cz) }),
            forall|a: i32, b: i32| (a, b) != (cx, cz) ==> #[trigger] final(self).border_at(a, b) == old(self).border_at(a, b),
            forall|a: i32, b: i32| #[trigger] final(self).emitters_at(a, b) == old(self).emitters_at(a, b),
    {
        let k = pack_chunk_key(cx, cz);
        let changed = match self.borders.get(&k) {
            Some(existing) => !equal_planes(existing, &lb),
            None => true,
        };
        if changed {
            self.borders.insert(k, lb);
        }
        proof {
            assert forall|a: i32, b: i32| (a, b) != (cx, cz) implies #[trigger] self.border_at(a, b) == old(self).border_at(a, b) by {
                lemma_chunk_key_inj(a, b, cx, cz);
            }
        }
        changed
    }

    /// Chunk and local cell of a world position with `0 <= wy < sy`.
    pub open spec fn split(&self, wx: i32, wz: i32) -> (i32, i32, usize, usize) {
        let sx = self.dims().sx as int;
        let sz = self.dims().sz as int;
        ((wx as int / sx) as i32, (wz as int / sz) as i32, (wx as int % sx) as usize, (wz as int % sz) as usize)
    }

    pub open spec fn dims_fit_i32(&self) -> bool {
        0 < self.dims().sx <= i32::MAX && 0 < self.dims().sz <= i32::MAX && self.dims().sy <= i32::MAX
    }

    /// Records a block-light emitter at a world position.
    pub fn add_emitter_world(&mut self, wx: i32, wy: i32, wz: i32, level: u8)
        requires
            old(self).dims_fit_i32(),
        ensures
            final(self).dims() == old(self).dims(),
            final(self).emitter_added(old(self), wx, wy, wz, level, false),
    {
        self.add_emitter_world_typed(wx, wy, wz, level, false);
    }

    /// Records a beacon emitter at a world position.
    pub fn add_beacon_world(&mut self, wx: i32, wy: i32, wz: i32, level: u8)
        requires
            old(self).dims_fit_i32(),
        ensures
            final(self).dims() == old(self).dims(),
            final(self).emitter_added(old(self), wx, wy, wz, level, true),
    {
        self.add_emitter_world_typed(wx, wy, wz, level, true);
    }

    /// After adding an emitter at a world position inside the vertical range,
    /// its chunk holds it, unless an emitter already sat at that cell; positions
    /// outside the vertical range and all other chunks are untouched.
    pub open spec fn emitter_added(&self, old: &LightingStore, wx: i32, wy: i32, wz: i32, level: u8, beacon: bool) -> bool {
        let (cx, cz, lx, lz) = old.split(wx, wz);
        &&& forall|a: i32, b: i32| #[trigger] self.border_at(a, b) == old.border_at(a, b)
        &&& if wy < 0 || wy >= old.dims().sy {
            forall|a: i32, b: i32| #[trigger] self.emitters_at(a, b) == old.emitters_at(a, b)
        } else {
            &&& forall|a: i32, b: i32| (a, b) != (cx, cz) ==> #[trigger] self.emitters_at(a, b) == old.emitters_at(a, b)
            &&& self.emitters_at(cx, cz) == (if has_pos(old.emitters_at(cx, cz), lx, wy as usize, lz) {
                old.emitters_at(cx, cz)
            } else {
                old.emitters_at(cx, cz).push((lx, wy as usize, lz, level, beacon))
            })
        }
    }

    /// After removing the emitters at a world position inside the vertical
    /// range, its chunk keeps the others in order; positions outside the
    /// vertical range, all other chunks and all borders are untouched.
    pub open spec fn emitter_removed(&self, old: &LightingStore, wx: i32, wy: i32, wz: i32) -> bool {
        let (cx, cz, lx, lz) = old.split(wx, wz);
        &&& forall|a: i32, b: i32| #[trigger] self.border_at(a, b) == old.border_at(a, b)
        &&& if wy < 0 || wy >= old.dims().sy {
            forall|a: i32, b: i32| #[trigger] self.emitters_at(a, b) == old.emitters_at(a, b)
        } else {
            &&& forall|a: i32, b: i32| (a, b) != (cx, cz) ==> #[trigger] self.emitters_at(a, b) == old.emitters_at(a, b)
            &&& self.emitters_at(cx, cz) == old.emitters_at(cx, cz).filter(|e: Emitter| !(e.0 == lx && e.1 == wy as usize && e.2 == lz))
        }
    }

    fn add_emitter_world_typed(&mut self, wx: i32, wy: i32, wz: i32, level: u8, is_beacon: bool)
        requires
            old(self).dims_fit_i32(),
        ensures
            final(self).dims() == old(self).dims(),
            final(self).emitter_added(old(self), wx, wy, wz, level, is_beacon),
    {
        if wy < 0 || wy >= self.sy as i32 {
            return;
        }
        let (cx, lx) = floor_div_mod(wx, self.sx as i32);
        let (cz, lz) = floor_div_mod(wz, self.sz as i32);
        let lx = lx as usize;
        let lz = lz as usize;
        let ly = wy as usize;
        let k = pack_chunk_key(cx, cz);
        let mut v = match self.emitters.remove(&k) {
            Some(v) => v,
            None => Vec::new(),
        };
        let ghost old_v = v@;
        assert(old_v == old(self).emitters_at(cx, cz));
        let mut found = false;
        let mut i: usize = 0;
        while i < v.len()
            invariant
                i <= v@.len(),
                v@ == old_v,
                found == has_pos(v@.take(i as int), lx, ly, lz),
            decreases v@.len() - i,
        {
            let e = v[i];
            proof {
                let t = v@.take(i as int + 1);
                if has_pos(v@.take(i as int), lx, ly, lz) {
                    let j = choose|j: int| 0 <= j < v@.take(i as int).len() && (#[trigger] v@.take(i as int)[j]).0 == lx && v@.take(i as int)[j].1 == ly && v@.take(i as int)[j].2 == lz;
                    assert(t[j] == v@.take(i as int)[j]);
                }
                if e.0 == lx && e.1 == ly && e.2 == lz {
                    assert(t[i as int] == e);
                }
                if has_pos(t, lx, ly, lz) {
                    let j = choose|j: int| 0 <= j < t.len() && (#[trigger] t[j]).0 == lx && t[j].1 == ly && t[j].2 == lz;
                    if j < i {
                        assert(v@.take(i as int)[j] == t[j]);
                    }
                }
            }
            if e.0 == lx && e.1 == ly && e.2 == lz {
                found = true;
            }
            i = i + 1;
        }
        assert(v@.take(v@.len() as int) =~= v@);
        if !found {
            v.push((lx, ly, lz, level, is_beacon));
        }
        self.emitters.insert(k, v);
        proof {
            assert forall|a: i32, b: i32| (a, b) != (cx, cz) implies #[trigger] self.emitters_at(a, b) == old(self).emitters_at(a, b) by {
                lemma_chunk_key_inj(a, b, cx, cz);
            }
        }
    }

    /// Removes the emitter at a world position, dropping the chunk's list when it empties.
    pub fn remove_emitter_world(&mut self, wx: i32, wy: i32, wz: i32)
        requires
            old(self).dims_fit_i32(),
        ensures
            final(self).dims() == old(self).dims(),
            final(self).emitter_removed(old(self), wx, wy, wz),
    {
        if wy < 0 || wy >= self.sy as i32 {
            return;
        }
        let (cx, lx) = floor_div_mod(wx, self.sx as i32);
        let (cz, lz) = floor_div_mod(wz, self.sz as i32);
        let lx = lx as usize;
        let lz = lz as usize;
        let ly = wy as usize;
        let k = pack_chunk_key(cx, cz);
        let ghost keep = |e: Emitter| !(e.0 == lx && e.1 == ly && e.2 == lz);
        match self.emitters.remove(&k) {
            None => {
                reveal_with_fuel(Seq::<Emitter>::filter, 1);
                assert(old(self).emitters_at(cx, cz).filter(keep) =~= Seq::<Emitter>::empty());
            },
            Some(v) => {
                let mut kept: Vec<Emitter> = Vec::new();
                let mut i: usize = 0;
                proof {
                    reveal_with_fuel(Seq::<Emitter>::filter, 1);
                    assert(v@.take(0).len() == 0);
                }
                while i < v.len()
                    invariant
                        i <= v@.len(),
                        keep == (|e: Emitter| !(e.0 == lx && e.1 == ly && e.2 == lz)),
                        kept@ == v@.take(i as int).filter(keep),
                    decreases v@.len() - i,
                {
                    let e = v[i];
                    proof {
                        assert(v@.take(i as int + 1).drop_last() =~= v@.take(i as int));
                        reveal_with_fuel(Seq::<Emitter>::filter, 1);
                        assert(v@.take(i as int + 1).last() == e);
                    }
                    if !(e.0 == lx && e.1 == ly && e.2 == lz) {
                        kept.push(e);
                    }
                    i = i + 1;
                }
                assert(v@.take(v@.len() as int) =~= v@);
                if kept.len() > 0 {
                    self.emitters.insert(k, kept);
                } else {
                    assert(kept@ =~= Seq::<Emitter>::empty());
                }
            },
        }
        proof {
            assert forall|a: i32, b: i32| (a, b) != (cx, cz) implies #[trigger] self.emitters_at(a, b) == old(self).emitters_at(a, b) by {
                lemma_chunk_key_inj(a, b, cx, cz);
            }
        }
    }

    /// The chunk's stored emitters (empty when none).
    pub fn emitters_for_chunk(&self, cx: i32, cz: i32) -> (r: Vec<Emitter>)
        ensures
            r@ == self.emitters_at(cx, cz),
    {
        let k = pack_chunk_key(cx, cz);
        match self.emitters.get(&k) {
            Some(v) => copy_emitters(v),
            None => Vec::new(),
        }
    }
}

fn copy_emitters(v: &Vec<Emitter>) -> (r: Vec<Emitter>)
    ensures
        r@ == v@,
{
    let mut r: Vec<Emitter> = Vec::new();
    let mut i: usize = 0;
    while i < v.len()
        invariant
            i <= v@.len(),
            r@ == v@.take(i as int),
        decreases v@.len() - i,
    {
        r.push(v[i]);
        i = i + 1;
        assert(r@ =~= v@.take(i as int));
    }
    assert(v@.take(i as int) =~= v@);
    r
}

/// A plane, if present, holds at least `n` values.
pub open spec fn opt_len_at_least(p: Option<Seq<u8>>, n: int) -> bool {
    p matches Some(v) ==> v.len() >= n
}

/// Every light plane that neighbors expose is at least as long as the face
/// of a chunk of dimensions `dm` it lies on.
pub open spec fn nb_planes_fit(p: NbPlanes, dm: Dims) -> bool {
    &&& opt_len_at_least(p.xn, plane_len(dm, 0)) && opt_len_at_least(p.xp, plane_len(dm, 1))
    &&& opt_len_at_least(p.zn, plane_len(dm, 2)) && opt_len_at_least(p.zp, plane_len(dm, 3))
    &&& opt_len_at_least(p.sk_xn, plane_len(dm, 0)) && opt_len_at_least(p.sk_xp, plane_len(dm, 1))
    &&& opt_len_at_least(p.sk_zn, plane_len(dm, 2)) && opt_len_at_least(p.sk_zp, plane_len(dm, 3))
    &&& opt_len_at_least(p.bcn_xn, plane_len(dm, 0)) && opt_len_at_least(p.bcn_xp, plane_len(dm, 1))
    &&& opt_len_at_least(p.bcn_zn, plane_len(dm, 2)) && opt_len_at_least(p.bcn_zp, plane_len(dm, 3))
}

pub open spec fn opt_plane(b: Option<LightBorders>, f: spec_fn(LightBorders) -> Seq<u8>) -> Option<Seq<u8>> {
    match b {
        Some(b) => Some(f(b)),
        None => None,
    }
}

/// Planes that the four horizontal neighbors expose toward a chunk: the -X
/// neighbor its +X planes, the +X neighbor its -X planes, and likewise along z.
pub open spec fn exposed_planes(wxn: Option<LightBorders>, wxp: Option<LightBorders>, wzn: Option<LightBorders>, wzp: Option<LightBorders>) -> NbPlanes {
    NbPlanes {
        xn: opt_plane(wxn, |b: LightBorders| b.xp@),
        sk_xn: opt_plane(wxn, |b: LightBorders| b.sk_xp@),
        bcn_xn: opt_plane(wxn, |b: LightBorders| b.bcn_xp@),
        bcn_dir_xn: opt_plane(wxn, |b: LightBorders| b.bcn_dir_xp@),
        xp: opt_plane(wxp, |b: LightBorders| b.xn@),
        sk_xp: opt_plane(wxp, |b: LightBorders| b.sk_xn@),
        bcn_xp: opt_plane(wxp, |b: LightBorders| b.bcn_xn@),
        bcn_dir_xp: opt_plane(wxp, |b: LightBorders| b.bcn_dir_xn@),
        zn: opt_plane(wzn, |b: LightBorders| b.zp@),
        sk_zn: opt_plane(wzn, |b: LightBorders| b.sk_zp@),
        bcn_zn: opt_plane(wzn, |b: LightBorders| b.bcn_zp@),
        bcn_dir_zn: opt_plane(wzn, |b: LightBorders| b.bcn_dir_zp@),
        zp: opt_plane(wzp, |b: LightBorders| b.zn@),
        sk_zp: opt_plane(wzp, |b: LightBorders| b.sk_zn@),
        bcn_zp: opt_plane(wzp, |b: LightBorders| b.bcn_zn@),
        bcn_dir_zp: opt_plane(wzp, |b: LightBorders| b.bcn_dir_zn@),
    }
}

impl LightingStore {
    /// What the neighbors of `(cx, cz)` currently expose toward it.
    pub open spec fn neighbor_planes(&self, cx: i32, cz: i32) -> NbPlanes {
        exposed_planes(self.border_at((cx - 1) as i32, cz), self.border_at((cx + 1) as i32, cz),
            self.border_at(cx, (cz - 1) as i32), self.border_at(cx, (cz + 1) as i32))
    }
}


/// What a chunk's stored borders offer is what its four neighbors see
/// across the shared faces: the +X neighbor sees its +X planes on its own
/// -X side, the -X neighbor its -X planes, and likewise along Z.
pub proof fn lemma_stored_borders_reach_neighbors(s: LightingStore, cx: i32, cz: i32, lb: LightBorders)
    requires
        s.border_at(cx, cz) == Some(lb),
        i32::MIN < cx < i32::MAX,
        i32::MIN < cz < i32::MAX,
    ensures
        s.neighbor_planes((cx + 1) as i32, cz).xn == Some(lb.xp@),
        s.neighbor_planes((cx + 1) as i32, cz).sk_xn == Some(lb.sk_xp@),
        s.neighbor_planes((cx + 1) as i32, cz).bcn_xn == Some(lb.bcn_xp@),
        s.neighbor_planes((cx - 1) as i32, cz).xp == Some(lb.xn@),
        s.neighbor_planes((cx - 1) as i32, cz).sk_xp == Some(lb.sk_xn@),
        s.neighbor_planes((cx - 1) as i32, cz).bcn_xp == Some(lb.bcn_xn@),
        s.neighbor_planes(cx, (cz + 1) as i32).zn == Some(lb.zp@),
        s.neighbor_planes(cx, (cz + 1) as i32).sk_zn == Some(lb.sk_zp@),
        s.neighbor_planes(cx, (cz + 1) as i32).bcn_zn == Some(lb.bcn_zp@),
        s.neighbor_planes(cx, (cz - 1) as i32).zp == Some(lb.zn@),
        s.neighbor_planes(cx, (cz - 1) as i32).sk_zp == Some(lb.sk_zn@),
        s.neighbor_planes(cx, (cz - 1) as i32).bcn_zp == Some(lb.bcn_zn@),
{
    assert((((cx + 1) as i32) - 1) as i32 == cx);
    assert((((cx - 1) as i32) + 1) as i32 == cx);
    assert((((cz + 1) as i32) - 1) as i32 == cz);
    assert((((cz - 1) as i32) + 1) as i32 == cz);
}

impl LightGrid {
    /// Lights a chunk from its blocks, the emitters stored for it, and the
    /// border planes its neighbors expose in `store`.
    pub fn compute_with_borders_buf(buf: &ChunkBuf, store: &LightingStore, reg: &BlockRegistry) -> (lg: LightGrid)
        requires
            buf.wf(),
            buf.sx > 0 && buf.sy > 0 && buf.sz > 0,
            buf.sx * buf.sy <= usize::MAX,
            buf.sx * buf.sy * buf.sz <= usize::MAX,
            nb_planes_fit(store.neighbor_planes(buf.cx, buf.cz), dims_of(buf)),
            i32::MIN < buf.cx < i32::MAX,
            i32::MIN < buf.cz < i32::MAX,
        ensures
            lg.lit_from(buf, reg, store.emitters_at(buf.cx, buf.cz), store.neighbor_planes(buf.cx, buf.cz)),
    {
        let es = store.emitters_for_chunk(buf.cx, buf.cz);
        let nb = store.get_neighbor_borders(buf.cx, buf.cz);
        proof {
            assert(nb.fits(dims_of(buf)));
        }
        Self::compute_from_parts(buf, reg, &es, &nb)
    }
}


/// Tree species of the legacy block palette.
#[derive(Clone, Copy, Debug, PartialEq, Eq, Structural)]
pub enum TreeSpecies {
    Oak,
    Birch,
    Spruce,
    Jungle,
    Acacia,
    DarkOak,
}

/// The fixed block palette used before blocks came from the registry.
#[derive(Clone, Copy, Debug, PartialEq, Eq, Structural)]
pub enum LegacyBlock {
    Air,
    Stone,
    Dirt,
    Grass,
    Sand,
    Snow,
    Glowstone,
    Beacon,
    Wood(TreeSpecies),
    Leaves(TreeSpecies),
}

pub open spec fn legacy_name(b: LegacyBlock) -> Seq<char> {
    match b {
        LegacyBlock::Air => "air"@,
        LegacyBlock::Stone => "stone"@,
        LegacyBlock::Dirt => "dirt"@,
        LegacyBlock::Grass => "grass"@,
        LegacyBlock::Sand => "sand"@,
        LegacyBlock::Snow => "snow"@,
        LegacyBlock::Glowstone => "glowstone"@,
        LegacyBlock::Beacon => "beacon"@,
        LegacyBlock::Wood(TreeSpecies::Oak) => "oak_log"@,
        LegacyBlock::Wood(TreeSpecies::Birch) => "birch_log"@,
        LegacyBlock::Wood(TreeSpecies::Spruce) => "spruce_log"@,
        LegacyBlock::Wood(TreeSpecies::Jungle) => "jungle_log"@,
        LegacyBlock::Wood(TreeSpecies::Acacia) => "acacia_log"@,
        LegacyBlock::Wood(TreeSpecies::DarkOak) => "dark_oak_log"@,
        LegacyBlock::Leaves(TreeSpecies::Oak) => "oak_leaves"@,
        LegacyBlock::Leaves(TreeSpecies::Birch) => "birch_leaves"@,
        LegacyBlock::Leaves(TreeSpecies::Spruce) => "spruce_leaves"@,
        LegacyBlock::Leaves(TreeSpecies::Jungle) => "jungle_leaves"@,
        LegacyBlock::Leaves(TreeSpecies::Acacia) => "acacia_leaves"@,
        LegacyBlock::Leaves(TreeSpecies::DarkOak) => "oak_leaves"@,
    }
}

/// Registry name of a legacy block (dark oak leaves map to oak leaves).
pub fn map_legacy_block_to_registry_name(b: LegacyBlock) -> (r: Option<&'static str>)
    ensures
        r is Some,
        r matches Some(n) ==> n@ == legacy_name(b),
{
    let n: &'static str = match b {
        LegacyBlock::Air => "air",
        LegacyBlock::Stone => "stone",
        LegacyBlock::Dirt => "dirt",
        LegacyBlock::Grass => "grass",
        LegacyBlock::Sand => "sand",
        LegacyBlock::Snow => "snow",
        LegacyBlock::Glowstone => "glowstone",
        LegacyBlock::Beacon => "beacon",
        LegacyBlock::Wood(TreeSpecies::Oak) => "oak_log",
        LegacyBlock::Wood(TreeSpecies::Birch) => "birch_log",
        LegacyBlock::Wood(TreeSpecies::Spruce) => "spruce_log",
        LegacyBlock::Wood(TreeSpecies::Jungle) => "jungle_log",
        LegacyBlock::Wood(TreeSpecies::Acacia) => "acacia_log",
        LegacyBlock::Wood(TreeSpecies::DarkOak) => "dark_oak_log",
        LegacyBlock::Leaves(TreeSpecies::Oak) => "oak_leaves",
        LegacyBlock::Leaves(TreeSpecies::Birch) => "birch_leaves",
        LegacyBlock::Leaves(TreeSpecies::Spruce) => "spruce_leaves",
        LegacyBlock::Leaves(TreeSpecies::Jungle) => "jungle_leaves",
        LegacyBlock::Leaves(TreeSpecies::Acacia) => "acacia_leaves",
        LegacyBlock::Leaves(TreeSpecies::DarkOak) => "oak_leaves",
    };
    Some(n)
}

proof fn lemma_dyn_max_bounds(es: Seq<(usize, usize, usize, u8, bool)>, x: int, y: int, z: int, beam: bool)
    ensures
        0 <= dyn_max(es, x, y, z, beam) <= 255,
    decreases es.len(),
{
    if es.len() > 0 {
        lemma_dyn_max_bounds(es.drop_last(), x, y, z, beam);
    }
}

/// Lighting a chunk with one more block-light emitter changes no skylight,
/// darkens no cell's block light, and leaves the beacon seeds, their
/// directions and the lights allowed to start a beam as they were (so every
/// beacon requirement on the two results is the same).
pub proof fn lemma_extra_emitter_only_brightens(
    g1: LightGrid,
    g2: LightGrid,
    buf: &ChunkBuf,
    reg: &BlockRegistry,
    es: Seq<(usize, usize, usize, u8, bool)>,
    e: (usize, usize, usize, u8, bool),
    nb: NbPlanes,
)
    requires
        g1.lit_from(buf, reg, es, nb),
        g2.lit_from(buf, reg, es.push(e), nb),
        !e.4,
    ensures
        g2.sky() == g1.sky(),
        dominates(g2.blk(), g1.blk()),
        bcn_seeds(buf, reg, es.push(e), nb) == bcn_seeds(buf, reg, es, nb),
        bcn_seed_dirs(buf, reg, es.push(e), nb) == bcn_seed_dirs(buf, reg, es, nb),
        bcn_starts(buf, reg, es.push(e), nb) == bcn_starts(buf, reg, es, nb),
{
    let dm = dims_of(buf);
    // beacon seeds: a block-light emitter is not a beacon
    assert(es.push(e).drop_last() =~= es);
    assert forall|x: int, y: int, z: int| #[trigger] bcn_seed(buf, reg, es.push(e), nb, x, y, z) == bcn_seed(buf, reg, es, nb, x, y, z) by {
        assert(dyn_max(es.push(e), x, y, z, true) == dyn_max(es, x, y, z, true));
    }
    assert(bcn_seeds(buf, reg, es.push(e), nb) =~= bcn_seeds(buf, reg, es, nb));
    assert(bcn_seed_dirs(buf, reg, es.push(e), nb) =~= bcn_seed_dirs(buf, reg, es, nb));
    assert forall|c: (int, int, int), v: int, d: u8| #[trigger] bcn_starts(buf, reg, es.push(e), nb)(c, v, d) == bcn_starts(buf, reg, es, nb)(c, v, d) by {
        assert(dyn_max(es.push(e), c.0, c.1, c.2, true) == dyn_max(es, c.0, c.1, c.2, true));
    }
    assert(bcn_starts(buf, reg, es.push(e), nb) =~= bcn_starts(buf, reg, es, nb));
    let open = open_mask(buf, reg);
    // skylight: the same least closure of the same seeds
    let ss = sky_seeds(buf, reg, nb);
    assert(closed(g2.sky(), open, dm, 32) && dominates(g2.sky(), ss));
    assert(dominates(g2.sky(), g1.sky()));
    assert(closed(g1.sky(), open, dm, 32) && dominates(g1.sky(), ss));
    assert(dominates(g1.sky(), g2.sky()));
    assert(g2.sky() =~= g1.sky());
    // block light: larger seeds, so a larger least closure
    let s1 = blk_seeds(buf, reg, es, nb);
    let s2 = blk_seeds(buf, reg, es.push(e), nb);
    assert(es.push(e).drop_last() =~= es);
    assert forall|i: int| 0 <= i < s1.len() implies s1[i] <= #[trigger] s2[i] by {
        let c = crate::grid::cell_of(dm.sx as int, dm.sz as int, i);
        lemma_dyn_max_bounds(es, c.0, c.1, c.2, false);
        lemma_dyn_max_bounds(es.push(e), c.0, c.1, c.2, false);
        assert(dyn_max(es.push(e), c.0, c.1, c.2, false) >= dyn_max(es, c.0, c.1, c.2, false));
    }
    assert(dominates(g2.blk(), s2));
    assert(dominates(g2.blk(), s1));
    assert(closed(g2.blk(), open, dm, 32));
}


/// Filtering keeps a list whose entries all pass.
proof fn lemma_filter_keeps_all(s: Seq<Emitter>, f: spec_fn(Emitter) -> bool)
    requires
        forall|i: int| 0 <= i < s.len() ==> f(#[trigger] s[i]),
    ensures
        s.filter(f) == s,
    decreases s.len(),
{
    if s.len() > 0 {
        lemma_filter_keeps_all(s.drop_last(), f);
        assert(s.drop_last().push(s.last()) =~= s);
        s.drop_last().lemma_filter_push(s.last(), f);
    } else {
        reveal(Seq::filter);
    }
}

/// Adding an emitter where its chunk has none and then removing the
/// emitters at that position gives back every chunk's emitter list and
/// every border.
pub proof fn lemma_add_then_remove_emitter(
    s0: LightingStore,
    s1: LightingStore,
    s2: LightingStore,
    wx: i32,
    wy: i32,
    wz: i32,
    level: u8,
    beacon: bool,
)
    requires
        s1.dims() == s0.dims(),
        s1.emitter_added(&s0, wx, wy, wz, level, beacon),
        s2.emitter_removed(&s1, wx, wy, wz),
        ({
            let (cx, cz, lx, lz) = s0.split(wx, wz);
            !has_pos(s0.emitters_at(cx, cz), lx, wy as usize, lz)
        }),
    ensures
        forall|a: i32, b: i32| #[trigger] s2.emitters_at(a, b) == s0.emitters_at(a, b),
        forall|a: i32, b: i32| #[trigger] s2.border_at(a, b) == s0.border_at(a, b),
{
    let (cx, cz, lx, lz) = s0.split(wx, wz);
    assert(s1.split(wx, wz) == s0.split(wx, wz));
    assert forall|a: i32, b: i32| #[trigger] s2.border_at(a, b) == s0.border_at(a, b) by {
        assert(s2.border_at(a, b) == s1.border_at(a, b));
    }
    if !(wy < 0 || wy >= s0.dims().sy) {
        let e0 = s0.emitters_at(cx, cz);
        let f = |e: Emitter| !(e.0 == lx && e.1 == wy as usize && e.2 == lz);
        let pushed = e0.push((lx, wy as usize, lz, level, beacon));
        assert(s1.emitters_at(cx, cz) == pushed);
        assert forall|i: int| 0 <= i < e0.len() implies f(#[trigger] e0[i]) by {
            if !f(e0[i]) {
                assert(has_pos(e0, lx, wy as usize, lz));
            }
        }
        assert(s1.split(wx, wz) == s0.split(wx, wz));
        assert(pushed.drop_last() =~= e0);
        assert(!f(pushed.last()));
        e0.lemma_filter_push((lx, wy as usize, lz, level, beacon), f);
        lemma_filter_keeps_all(e0, f);
        assert(s2.emitters_at(cx, cz) == pushed.filter(f));
        assert forall|a: i32, b: i32| #[trigger] s2.emitters_at(a, b) == s0.emitters_at(a, b) by {
            if (a, b) != (cx, cz) {
                assert(s2.emitters_at(a, b) == s1.emitters_at(a, b));
            }
        }
    } else {
        assert forall|a: i32, b: i32| #[trigger] s2.emitters_at(a, b) == s0.emitters_at(a, b) by {
            assert(s2.emitters_at(a, b) == s1.emitters_at(a, b));
        }
    }
}


/// A side face (faces 2..6: +X, -X, +Z, -Z) of a cell on the chunk side it
/// looks out of, where no neighbor light plane gives anything at that
/// position (planes absent or 0), sees the brightest channel of its own
/// cell: at least each of the cell's skylight, block light and beacon light,
/// and equal to one of them.
pub proof fn lemma_unlit_side_shows_own_cell(g: LightGrid, x: int, y: int, z: int, face: int)
    requires
        g.wf(),
        in_grid(g.dims().0 as int, g.dims().1 as int, g.dims().2 as int, x, y, z),
        2 <= face < 6,
        face == 2 ==> x == g.dims().0 - 1,
        face == 3 ==> x == 0,
        face == 4 ==> z == g.dims().2 - 1,
        face == 5 ==> z == 0,
        forall|k: int| 0 <= k < 12 ==> get_or0(#[trigger] g.planes()[k],
            if face < 4 { y * g.dims().2 + z } else { y * g.dims().0 + x }) == 0,
    ensures
        ({
            let i = grid_idx(g.dims().0 as int, g.dims().2 as int, x, y, z);
            let r = face_light(g.dims(), g.sky(), g.blk(), g.bcn(), g.planes(), x, y, z, face);
            &&& r >= g.sky()[i] && r >= g.blk()[i] && r >= g.bcn()[i]
            &&& (r == g.sky()[i] || r == g.blk()[i] || r == g.bcn()[i])
        }),
{
    let pi = if face < 4 { y * g.dims().2 + z } else { y * g.dims().0 + x };
    assert(get_or0(g.planes()[0], pi) == 0 && get_or0(g.planes()[1], pi) == 0);
    assert(get_or0(g.planes()[2], pi) == 0 && get_or0(g.planes()[3], pi) == 0);
    assert(get_or0(g.planes()[4], pi) == 0 && get_or0(g.planes()[5], pi) == 0);
    assert(get_or0(g.planes()[6], pi) == 0 && get_or0(g.planes()[7], pi) == 0);
    assert(get_or0(g.planes()[8], pi) == 0 && get_or0(g.planes()[9], pi) == 0);
    assert(get_or0(g.planes()[10], pi) == 0 && get_or0(g.planes()[11], pi) == 0);
}

} // verus!
