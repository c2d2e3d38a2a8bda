//! Index arithmetic for dense `sx * sy * sz` voxel grids laid out as
//! `(y * sz + z) * sx + x`.
use vstd::prelude::*;

verus! {

pub open spec fn grid_idx(sx: int, sz: int, x: int, y: int, z: int) -> int {
    (y * sz + z) * sx + x
}

pub open spec fn in_grid(sx: int, sy: int, sz: int, x: int, y: int, z: int) -> bool {
    0 <= x < sx && 0 <= y < sy && 0 <= z < sz
}

pub proof fn lemma_grid_idx_bounds(sx: int, sy: int, sz: int, x: int, y: int, z: int)
    requires
        in_grid(sx, sy, sz, x, y, z),
    ensures
        0 <= y * sz + z < sy * sz,
        0 <= grid_idx(sx, sz, x, y, z) < sx * sy * sz,
        y * sz + z <= (y * sz + z) * sx,
{
    assert(0 <= y * sz + z < sy * sz) by (nonlinear_arith)
        requires
            0 <= z < sz,
            0 <= y < sy,
    ;
    let r = y * sz + z;
    assert(0 <= r * sx + x < sx * sy * sz && r <= r * sx) by (nonlinear_arith)
        requires
            0 <= r < sy * sz,
            0 <= x < sx,
    ;
}

pub proof fn lemma_grid_idx_inj(sx: int, sy: int, sz: int, x1: int, y1: int, z1: int, x2: int, y2: int, z2: int)
    requires
        in_grid(sx, sy, sz, x1, y1, z1),
        in_grid(sx, sy, sz, x2, y2, z2),
        grid_idx(sx, sz, x1, y1, z1) == grid_idx(sx, sz, x2, y2, z2),
    ensures
        x1 == x2 && y1 == y2 && z1 == z2,
{
    let r1 = y1 * sz + z1;
    let r2 = y2 * sz + z2;
    lemma_div_unique(sx, r1, x1, r2, x2);
    lemma_div_unique(sz, y1, z1, y2, z2);
}

proof fn lemma_div_unique(d: int, q1: int, r1: int, q2: int, r2: int)
    requires
        0 <= r1 < d,
        0 <= r2 < d,
        q1 * d + r1 == q2 * d + r2,
    ensures
        q1 == q2 && r1 == r2,
{
    assert(q1 == q2) by (nonlinear_arith)
        requires
            0 <= r1 < d,
            0 <= r2 < d,
            q1 * d + r1 == q2 * d + r2,
    ;
}

/// A product of three sizes that fits in a machine word keeps each partial
/// product in range too.
pub proof fn lemma_grid_size_parts(sx: int, sy: int, sz: int)
    requires
        0 <= sx,
        0 <= sy,
        0 <= sz,
    ensures
        sx * sy * sz == (sy * sz) * sx,
        sx * sy * sz == sx * (sy * sz),
        sx > 0 && sy > 0 ==> sz <= sx * sy * sz,
        sx > 0 && sz > 0 ==> sy <= sx * sy * sz,
        sy > 0 && sz > 0 ==> sx <= sx * sy * sz,
        sz > 0 ==> sx * sy <= sx * sy * sz,
        sx > 0 ==> sy * sz <= sx * sy * sz,
        0 <= sx * sy,
        0 <= sy * sz,
        0 <= sx * sz,
        0 <= sx * sy * sz,
{
    assert(sx * sy * sz == (sy * sz) * sx && sx * sy * sz == sx * (sy * sz)) by (nonlinear_arith);
    assert(sx > 0 && sy > 0 ==> sz <= sx * sy * sz) by (nonlinear_arith)
        requires 0 <= sz, 0 <= sx, 0 <= sy;
    assert(sx > 0 && sz > 0 ==> sy <= sx * sy * sz) by (nonlinear_arith)
        requires 0 <= sz, 0 <= sx, 0 <= sy;
    assert(sy > 0 && sz > 0 ==> sx <= sx * sy * sz) by (nonlinear_arith)
        requires 0 <= sz, 0 <= sx, 0 <= sy;
    assert(sz > 0 ==> sx * sy <= sx * sy * sz) by (nonlinear_arith)
        requires 0 <= sz, 0 <= sx, 0 <= sy;
    assert(sx > 0 ==> sy * sz <= sx * sy * sz) by (nonlinear_arith)
        requires 0 <= sz, 0 <= sx, 0 <= sy;
    assert(0 <= sx * sy && 0 <= sy * sz && 0 <= sx * sz && 0 <= sx * sy * sz) by (nonlinear_arith)
        requires 0 <= sz, 0 <= sx, 0 <= sy;
}

/// Exec grid index; the result is in range for in-grid coordinates.
pub fn grid_index(sx: usize, sy: usize, sz: usize, x: usize, y: usize, z: usize) -> (i: usize)
    requires
        in_grid(sx as int, sy as int, sz as int, x as int, y as int, z as int),
        sx * sy * sz <= usize::MAX,
    ensures
        i == grid_idx(sx as int, sz as int, x as int, y as int, z as int),
        i < sx * sy * sz,
{
    proof {
        lemma_grid_idx_bounds(sx as int, sy as int, sz as int, x as int, y as int, z as int);
    }
    (y * sz + z) * sx + x
}


/// Coordinates `(x, y, z)` of the cell with index `i`.
pub open spec fn cell_of(sx: int, sz: int, i: int) -> (int, int, int) {
    (i % sx, i / (sx * sz), (i / sx) % sz)
}

/// A cell's index leads back to the cell.
pub proof fn lemma_cell_of_idx(sx: int, sy: int, sz: int, x: int, y: int, z: int)
    requires
        in_grid(sx, sy, sz, x, y, z),
    ensures
        cell_of(sx, sz, grid_idx(sx, sz, x, y, z)) == (x, y, z),
{
    let r = y * sz + z;
    let i = r * sx + x;
    assert(0 <= r && 0 <= i) by (nonlinear_arith)
        requires r == y * sz + z, i == r * sx + x, 0 <= y, 0 <= z, 0 < sz, 0 <= x, 0 < sx;
    vstd::arithmetic::div_mod::lemma_fundamental_div_mod_converse(i, sx, r, x);
    vstd::arithmetic::div_mod::lemma_fundamental_div_mod_converse(r, sz, y, z);
    vstd::arithmetic::div_mod::lemma_div_denominator(i, sx, sz);
}

pub proof fn lemma_idx_of_cell(sx: int, sy: int, sz: int, i: int)
    requires
        0 <= sx,
        0 <= sy,
        0 <= sz,
        0 <= i < sx * sy * sz,
    ensures
        in_grid(sx, sy, sz, cell_of(sx, sz, i).0, cell_of(sx, sz, i).1, cell_of(sx, sz, i).2),
        grid_idx(sx, sz, cell_of(sx, sz, i).0, cell_of(sx, sz, i).1, cell_of(sx, sz, i).2) == i,
{
    assert(0 < sx && 0 < sy && 0 < sz) by (nonlinear_arith)
        requires 0 <= i < sx * sy * sz, 0 <= sx, 0 <= sy, 0 <= sz;
    let x = i % sx;
    let r = i / sx;
    vstd::arithmetic::div_mod::lemma_fundamental_div_mod(i, sx);
    vstd::arithmetic::div_mod::lemma_mod_pos_bound(i, sx);
    vstd::arithmetic::div_mod::lemma_div_pos_is_pos(i, sx);
    let z = r % sz;
    let y = r / sz;
    vstd::arithmetic::div_mod::lemma_fundamental_div_mod(r, sz);
    vstd::arithmetic::div_mod::lemma_mod_pos_bound(r, sz);
    vstd::arithmetic::div_mod::lemma_div_pos_is_pos(r, sz);
    vstd::arithmetic::div_mod::lemma_div_denominator(i, sx, sz);
    assert(y < sy) by (nonlinear_arith)
        requires
            i == sx * r + x, 0 <= x < sx, r == sz * y + z, 0 <= z < sz, 0 <= y,
            i < sx * sy * sz, 0 < sx, 0 < sz;
    assert((y * sz + z) * sx + x == i) by (nonlinear_arith)
        requires i == sx * r + x, r == sz * y + z;
}

} // verus!
