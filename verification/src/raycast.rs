//! The result of casting a ray through the voxel grid.
use vstd::prelude::*;

verus! {

/// A ray hit: the solid voxel `b`, the empty voxel `p` the ray came from,
/// and the normal `n` of the face it entered through.
#[derive(Clone, Copy, Debug, PartialEq, Eq, Structural)]
pub struct RayHit {
    pub bx: i32,
    pub by: i32,
    pub bz: i32,
    pub px: i32,
    pub py: i32,
    pub pz: i32,
    pub nx: i32,
    pub ny: i32,
    pub nz: i32,
}

/// The normal of the face entered when stepping from `prev` to `cur`: the
/// opposite of the step along the first axis (x, then y, then z) that
/// moved by one; zero when no axis did.
pub open spec fn entry_normal(dx: int, dy: int, dz: int) -> (i32, i32, i32) {
    if dx == 1 {
        (-1i32, 0i32, 0i32)
    } else if dx == -1 {
        (1i32, 0i32, 0i32)
    } else if dy == 1 {
        (0i32, -1i32, 0i32)
    } else if dy == -1 {
        (0i32, 1i32, 0i32)
    } else if dz == 1 {
        (0i32, 0i32, -1i32)
    } else if dz == -1 {
        (0i32, 0i32, 1i32)
    } else {
        (0i32, 0i32, 0i32)
    }
}

impl RayHit {
    /// The hit at voxel `(vx, vy, vz)` reached from voxel `(px, py, pz)`.
    pub fn from_step(vx: i32, vy: i32, vz: i32, px: i32, py: i32, pz: i32) -> (r: RayHit)
        ensures
            r.bx == vx && r.by == vy && r.bz == vz,
            r.px == px && r.py == py && r.pz == pz,
            (r.nx, r.ny, r.nz) == entry_normal(vx - px, vy - py, vz - pz),
    {
        let dx = vx as i64 - px as i64;
        let dy = vy as i64 - py as i64;
        let dz = vz as i64 - pz as i64;
        let (nx, ny, nz): (i32, i32, i32) = if dx == 1 {
            (-1, 0, 0)
        } else if dx == -1 {
            (1, 0, 0)
        } else if dy == 1 {
            (0, -1, 0)
        } else if dy == -1 {
            (0, 1, 0)
        } else if dz == 1 {
            (0, 0, -1)
        } else if dz == -1 {
            (0, 0, 1)
        } else {
            (0, 0, 0)
        };
        RayHit { bx: vx, by: vy, bz: vz, px, py, pz, nx, ny, nz }
    }
}

} // verus!
