//! The sun: a hollow sphere of blocks rendered as a structure in the sky.
use vstd::prelude::*;
use crate::types::Block;

verus! {

/// Edge length of the sun's block cube.
pub const SUN_DIAMETER_BLOCKS: usize = 48;

/// Cell `(x, y, z)` of the cube lies in the sun's shell: its center is
/// between 21 and 23.5 blocks from the cube's center (23.5, 23.5, 23.5).
/// In doubled coordinates the squared distance is between 42² and 47².
pub open spec fn in_sun_shell(x: int, y: int, z: int) -> bool {
    let d2 = (2 * x - 47) * (2 * x - 47) + (2 * y - 47) * (2 * y - 47) + (2 * z - 47) * (2 * z - 47);
    1764 <= d2 <= 2209
}

/// Position of cell `(x, y, z)` in the sun's block list.
pub open spec fn sun_index(x: int, y: int, z: int) -> int {
    (y * 48 + z) * 48 + x
}

fn shell_at(x: usize, y: usize, z: usize) -> (r: bool)
    requires
        x < 48 && y < 48 && z < 48,
    ensures
        r == in_sun_shell(x as int, y as int, z as int),
{
    let dx = 2 * (x as i64) - 47;
    let dy = 2 * (y as i64) - 47;
    let dz = 2 * (z as i64) - 47;
    assert(0 <= dx * dx <= 2209 && 0 <= dy * dy <= 2209 && 0 <= dz * dz <= 2209) by (nonlinear_arith)
        requires
            -47 <= dx <= 47,
            -47 <= dy <= 47,
            -47 <= dz <= 47,
    ;
    let d2 = dx * dx + dy * dy + dz * dz;
    1764 <= d2 && d2 <= 2209
}

/// The sun's blocks: `fill` in the shell, air elsewhere, listed with `x`
/// fastest, then `z`, then `y`.
pub fn build_sun_shell(fill: Block) -> (v: Vec<Block>)
    ensures
        v@.len() == 48 * 48 * 48,
        forall|x: int, y: int, z: int| 0 <= x < 48 && 0 <= y < 48 && 0 <= z < 48 ==>
            #[trigger] v@[sun_index(x, y, z)] == if in_sun_shell(x, y, z) { fill } else { Block::spec_air() },
{
    let side: usize = SUN_DIAMETER_BLOCKS;
    let mut blocks: Vec<Block> = Vec::new();
    let mut y: usize = 0;
    while y < side
        invariant
            side == 48,
            y <= 48,
            blocks@.len() == y * 2304,
            forall|a: int, b: int, c: int| 0 <= a < 48 && 0 <= b < y && 0 <= c < 48 ==>
                #[trigger] blocks@[sun_index(a, b, c)] == if in_sun_shell(a, b, c) { fill } else { Block::spec_air() },
        decreases 48 - y,
    {
        let mut z: usize = 0;
        while z < side
            invariant
                side == 48,
                y < 48,
                z <= 48,
                blocks@.len() == y * 2304 + z * 48,
                forall|a: int, b: int, c: int| 0 <= a < 48 && ((0 <= b < y && 0 <= c < 48) || (b == y && 0 <= c < z)) ==>
                    #[trigger] blocks@[sun_index(a, b, c)] == if in_sun_shell(a, b, c) { fill } else { Block::spec_air() },
            decreases 48 - z,
        {
            let mut x: usize = 0;
            while x < side
                invariant
                    side == 48,
                    y < 48,
                    z < 48,
                    x <= 48,
                    blocks@.len() == y * 2304 + z * 48 + x,
                    forall|a: int, b: int, c: int| ((0 <= a < 48 && 0 <= b < y && 0 <= c < 48) || (0 <= a < 48 && b == y && 0 <= c < z)
                        || (0 <= a < x && b == y && c == z)) ==>
                        #[trigger] blocks@[sun_index(a, b, c)] == if in_sun_shell(a, b, c) { fill } else { Block::spec_air() },
                decreases 48 - x,
            {
                let b = if shell_at(x, y, z) { fill } else { Block::air() };
                let ghost before = blocks@;
                blocks.push(b);
                proof {
                    assert forall|a: int, bb: int, c: int| ((0 <= a < 48 && 0 <= bb < y && 0 <= c < 48) || (0 <= a < 48 && bb == y && 0 <= c < z)
                        || (0 <= a < x + 1 && bb == y && c == z)) implies
                        #[trigger] blocks@[sun_index(a, bb, c)] == if in_sun_shell(a, bb, c) { fill } else { Block::spec_air() } by {
                        assert(sun_index(a, bb, c) < sun_index(x as int, y as int, z as int) || (a, bb, c) == (x as int, y as int, z as int)) by (nonlinear_arith)
                            requires
                                (0 <= a < 48 && 0 <= bb < y && 0 <= c < 48) || (0 <= a < 48 && bb == y && 0 <= c < z) || (0 <= a < x + 1 && bb == y && c == z),
                                x < 48,
                        ;
                        assert(sun_index(a, bb, c) >= 0) by (nonlinear_arith)
                            requires
                                0 <= a, 0 <= bb, 0 <= c,
                        ;
                        if (a, bb, c) != (x as int, y as int, z as int) {
                            assert(blocks@[sun_index(a, bb, c)] == before[sun_index(a, bb, c)]);
                        }
                    }
                }
                x = x + 1;
            }
            z = z + 1;
        }
        y = y + 1;
    }
    blocks
}

} // verus!
