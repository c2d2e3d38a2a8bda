//! Chunk coordinates in three axes and the set of chunks that the terrain
//! probe visits around a center.
use vstd::prelude::*;

verus! {

/// A chunk's position in chunk units.
#[derive(Clone, Copy, Debug, PartialEq, Eq, Hash, Structural)]
pub struct ChunkCoord {
    pub cx: i32,
    pub cy: i32,
    pub cz: i32,
}

impl ChunkCoord {
    pub fn new(cx: i32, cy: i32, cz: i32) -> (r: ChunkCoord)
        ensures
            r == (ChunkCoord { cx, cy, cz }),
    {
        ChunkCoord { cx, cy, cz }
    }

    /// Whether moving by `(dx, dy, dz)` stays within `i32`.
    pub open spec fn offset_fits(self, dx: int, dy: int, dz: int) -> bool {
        &&& i32::MIN <= self.cx + dx <= i32::MAX
        &&& i32::MIN <= self.cy + dy <= i32::MAX
        &&& i32::MIN <= self.cz + dz <= i32::MAX
    }

    pub open spec fn spec_offset(self, dx: int, dy: int, dz: int) -> ChunkCoord {
        ChunkCoord { cx: (self.cx + dx) as i32, cy: (self.cy + dy) as i32, cz: (self.cz + dz) as i32 }
    }

    /// The chunk `(dx, dy, dz)` chunks away.
    pub fn offset(self, dx: i32, dy: i32, dz: i32) -> (r: ChunkCoord)
        requires
            self.offset_fits(dx as int, dy as int, dz as int),
        ensures
            r == self.spec_offset(dx as int, dy as int, dz as int),
    {
        ChunkCoord { cx: self.cx + dx, cy: self.cy + dy, cz: self.cz + dz }
    }
}

/// The vertical reach of the probe: `vertical_limit` clamped to `[0, radius]`.
pub open spec fn probe_v_limit(radius: int, vertical_limit: int) -> int {
    let v = if vertical_limit < 0 { 0 } else { vertical_limit };
    if v > radius { radius } else { v }
}

/// Offset `(dx, dy, dz)` lies in the probe's ball: within `radius` along
/// each horizontal axis, within the vertical reach along Y, and at squared
/// distance at most `radius²`.
pub open spec fn in_probe(radius: int, v_limit: int, dx: int, dy: int, dz: int) -> bool {
    &&& -v_limit <= dy <= v_limit
    &&& -radius <= dz <= radius
    &&& -radius <= dx <= radius
    &&& dx * dx + dy * dy + dz * dz <= radius * radius
}

/// The visiting order: by Y, then Z, then X.
pub open spec fn probe_before(a: (int, int, int), b: (int, int, int)) -> bool {
    a.1 < b.1 || (a.1 == b.1 && (a.2 < b.2 || (a.2 == b.2 && a.0 < b.0)))
}

/// The offset of `c` from `center`.
pub open spec fn offset_of(center: ChunkCoord, c: ChunkCoord) -> (int, int, int) {
    (c.cx - center.cx, c.cy - center.cy, c.cz - center.cz)
}

/// `coords` lists, in visiting order and each once, exactly the chunks at
/// the in-probe offsets from `center`.
pub open spec fn probe_listing(center: ChunkCoord, radius: int, v_limit: int, coords: Seq<ChunkCoord>) -> bool {
    &&& forall|i: int| 0 <= i < coords.len() ==> {
        let (dx, dy, dz) = #[trigger] offset_of(center, coords[i]);
        in_probe(radius, v_limit, dx, dy, dz)
    }
    &&& forall|i: int, j: int| 0 <= i < j < coords.len() ==> probe_before(
        #[trigger] offset_of(center, coords[i]), #[trigger] offset_of(center, coords[j]))
    &&& forall|dx: int, dy: int, dz: int| #[trigger] in_probe(radius, v_limit, dx, dy, dz) ==>
        coords.contains(center.spec_offset(dx, dy, dz))
}

proof fn lemma_square_bound(d: int, r: int)
    requires
        -r <= d <= r,
        r <= i32::MAX,
    ensures
        0 <= d * d <= r * r,
        r * r <= 0x4000_0000_0000_0000,
{
    assert(0 <= d * d <= r * r) by (nonlinear_arith)
        requires -r <= d <= r;
    assert(r * r <= 0x4000_0000_0000_0000) by (nonlinear_arith)
        requires 0 <= r <= 0x7fff_ffff;
}

/// The chunks around `center` that the terrain probe visits: those at most
/// `radius` chunks away (Euclidean, in chunk units) whose vertical offset
/// is within `vertical_limit` clamped to `[0, radius]`; none for a negative
/// radius. They come by Y, then Z, then X.
pub fn chunk_coords_within_radius(center: ChunkCoord, radius: i32, vertical_limit: i32) -> (r: Vec<ChunkCoord>)
    requires
        radius >= 0 ==> center.offset_fits(radius as int, probe_v_limit(radius as int, vertical_limit as int), radius as int),
        radius >= 0 ==> center.offset_fits(-radius, -probe_v_limit(radius as int, vertical_limit as int), -radius),
    ensures
        radius < 0 ==> r@.len() == 0,
        radius >= 0 ==> probe_listing(center, radius as int, probe_v_limit(radius as int, vertical_limit as int), r@),
{
    if radius < 0 {
        return Vec::new();
    }
    let v0: i32 = if vertical_limit < 0 { 0 } else { vertical_limit };
    let v_limit: i32 = if v0 > radius { radius } else { v0 };
    let ghost rr = radius as int;
    let ghost vv = v_limit as int;
    let mut coords: Vec<ChunkCoord> = Vec::new();
    let r64: i64 = radius as i64;
    proof { lemma_square_bound(0, radius as int); }
    let r_sq: i128 = (r64 as i128) * (r64 as i128);
    let mut dy: i64 = -(v_limit as i64);
    while dy <= v_limit as i64
        invariant
            0 <= vv <= rr <= i32::MAX,
            vv == probe_v_limit(rr, vertical_limit as int),
            v_limit == vv,
            r64 == rr,
            r_sq == rr * rr,
            -vv <= dy <= vv + 1,
            center.offset_fits(rr, vv, rr),
            center.offset_fits(-rr, -vv, -rr),
            forall|i: int| 0 <= i < coords@.len() ==> {
                let (ex, ey, ez) = #[trigger] offset_of(center, coords@[i]);
                in_probe(rr, vv, ex, ey, ez) && probe_before((ex, ey, ez), (-rr, dy as int, -rr))
            },
            forall|i: int, j: int| 0 <= i < j < coords@.len() ==> probe_before(
                #[trigger] offset_of(center, coords@[i]), #[trigger] offset_of(center, coords@[j])),
            forall|ex: int, ey: int, ez: int| #[trigger] in_probe(rr, vv, ex, ey, ez)
                && probe_before((ex, ey, ez), (-rr, dy as int, -rr)) ==>
                coords@.contains(center.spec_offset(ex, ey, ez)),
        decreases vv + 1 - dy,
    {
        let mut dz: i64 = -r64;
        while dz <= r64
            invariant
                0 <= vv <= rr <= i32::MAX,
                v_limit == vv,
                r64 == rr,
                r_sq == rr * rr,
                -vv <= dy <= vv,
                -rr <= dz <= rr + 1,
                center.offset_fits(rr, vv, rr),
                center.offset_fits(-rr, -vv, -rr),
                forall|i: int| 0 <= i < coords@.len() ==> {
                    let (ex, ey, ez) = #[trigger] offset_of(center, coords@[i]);
                    in_probe(rr, vv, ex, ey, ez) && probe_before((ex, ey, ez), (-rr, dy as int, dz as int))
                },
                forall|i: int, j: int| 0 <= i < j < coords@.len() ==> probe_before(
                    #[trigger] offset_of(center, coords@[i]), #[trigger] offset_of(center, coords@[j])),
                forall|ex: int, ey: int, ez: int| #[trigger] in_probe(rr, vv, ex, ey, ez)
                    && probe_before((ex, ey, ez), (-rr, dy as int, dz as int)) ==>
                    coords@.contains(center.spec_offset(ex, ey, ez)),
            decreases rr + 1 - dz,
        {
            let mut dx: i64 = -r64;
            while dx <= r64
                invariant
                    0 <= vv <= rr <= i32::MAX,
                    v_limit == vv,
                    r64 == rr,
                    r_sq == rr * rr,
                    -vv <= dy <= vv,
                    -rr <= dz <= rr,
                    -rr <= dx <= rr + 1,
                    center.offset_fits(rr, vv, rr),
                    center.offset_fits(-rr, -vv, -rr),
                    forall|i: int| 0 <= i < coords@.len() ==> {
                        let (ex, ey, ez) = #[trigger] offset_of(center, coords@[i]);
                        in_probe(rr, vv, ex, ey, ez) && probe_before((ex, ey, ez), (dx as int, dy as int, dz as int))
                    },
                    forall|i: int, j: int| 0 <= i < j < coords@.len() ==> probe_before(
                        #[trigger] offset_of(center, coords@[i]), #[trigger] offset_of(center, coords@[j])),
                    forall|ex: int, ey: int, ez: int| #[trigger] in_probe(rr, vv, ex, ey, ez)
                        && probe_before((ex, ey, ez), (dx as int, dy as int, dz as int)) ==>
                        coords@.contains(center.spec_offset(ex, ey, ez)),
                decreases rr + 1 - dx,
            {
                proof {
                    lemma_square_bound(dx as int, rr);
                    lemma_square_bound(dy as int, rr);
                    lemma_square_bound(dz as int, rr);
                }
                let dist_sq: i128 = (dx as i128) * (dx as i128) + (dy as i128) * (dy as i128) + (dz as i128) * (dz as i128);
                let ghost old_coords = coords@;
                if dist_sq <= r_sq {
                    let c = center.offset(dx as i32, dy as i32, dz as i32);
                    coords.push(c);
                    proof {
                        let n = old_coords.len() as int;
                        assert(coords@[n] == c);
                        assert(offset_of(center, c) == (dx as int, dy as int, dz as int));
                        assert forall|i: int| 0 <= i < old_coords.len() implies #[trigger] coords@[i] == old_coords[i] by {}
                        assert forall|ex: int, ey: int, ez: int| #[trigger] in_probe(rr, vv, ex, ey, ez)
                            && probe_before((ex, ey, ez), (dx + 1, dy as int, dz as int)) implies
                            coords@.contains(center.spec_offset(ex, ey, ez)) by {
                            if probe_before((ex, ey, ez), (dx as int, dy as int, dz as int)) {
                                let k = choose|k: int| 0 <= k < old_coords.len() && old_coords[k] == center.spec_offset(ex, ey, ez);
                                assert(coords@[k] == old_coords[k]);
                            } else {
                                assert(coords@[n] == center.spec_offset(ex, ey, ez));
                            }
                        }
                    }
                } else {
                    proof {
                        assert forall|ex: int, ey: int, ez: int| #[trigger] in_probe(rr, vv, ex, ey, ez)
                            && probe_before((ex, ey, ez), (dx + 1, dy as int, dz as int)) implies
                            coords@.contains(center.spec_offset(ex, ey, ez)) by {
                            if !probe_before((ex, ey, ez), (dx as int, dy as int, dz as int)) {
                                assert(ex == dx && ey == dy && ez == dz);
                            }
                        }
                    }
                }
                dx = dx + 1;
            }
            dz = dz + 1;
        }
        dy = dy + 1;
    }
    coords
}

/// The probe's radius and vertical limit from the command's arguments:
/// the radius is at least 1; the vertical limit defaults to the radius, is
/// clamped to `[0, chunks_y_hint]`, is raised to 1 when that leaves 0 but
/// more than one chunk layer is hinted, and never exceeds the radius.
pub open spec fn spec_probe_extent(radius_arg: int, vertical_arg: Option<i32>, chunks_y_hint: int) -> (int, int) {
    let r0 = if radius_arg < 0 { 0 } else { radius_arg };
    let radius = if r0 == 0 { 1 } else { r0 };
    let v0 = match vertical_arg { Some(v) => v as int, None => radius };
    let v1 = if v0 < 0 { 0 } else if v0 > chunks_y_hint { chunks_y_hint } else { v0 };
    let v2 = if v1 == 0 && chunks_y_hint > 1 { 1 } else { v1 };
    (radius, if v2 > radius { radius } else { v2 })
}

/// See `spec_probe_extent`.
pub fn probe_extent(radius_arg: i32, vertical_arg: Option<i32>, chunks_y_hint: usize) -> (r: (i32, i32))
    requires
        chunks_y_hint <= i32::MAX,
    ensures
        (r.0 as int, r.1 as int) == spec_probe_extent(radius_arg as int, vertical_arg, chunks_y_hint as int),
{
    let mut radius: i32 = if radius_arg < 0 { 0 } else { radius_arg };
    if radius == 0 {
        radius = 1;
    }
    let hint: i32 = chunks_y_hint as i32;
    let v0: i32 = match vertical_arg {
        Some(v) => v,
        None => radius,
    };
    let mut vertical_limit: i32 = if v0 < 0 { 0 } else if v0 > hint { hint } else { v0 };
    if vertical_limit == 0 && chunks_y_hint > 1 && radius > 0 {
        vertical_limit = 1;
    }
    let vertical_limit: i32 = if vertical_limit > radius { radius } else { vertical_limit };
    (radius, vertical_limit)
}

} // verus!
