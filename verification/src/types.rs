use vstd::prelude::*;

verus! {

/// Numeric identifier of a block type in the registry.
pub type BlockId = u16;

/// Packed per-block state bits (see `BlockType::pack_state`).
pub type BlockState = u16;

/// Compact voxel representation used at runtime.
#[derive(Copy, Clone, PartialEq, Eq, Default, Debug, Structural)]
pub struct Block {
    pub id: BlockId,
    pub state: BlockState,
}

impl Block {
    pub open spec fn spec_air() -> Block {
        Block { id: 0, state: 0 }
    }

    /// The canonical air block: id 0, state 0.
    pub fn air() -> (b: Block)
        ensures
            b == Self::spec_air(),
    {
        Block { id: 0, state: 0 }
    }
}

/// Index of a material in the material catalog.
#[derive(Copy, Clone, PartialEq, Eq, Hash, Debug, Structural)]
pub struct MaterialId(pub u16);

/// Face role used by cube-like shapes to resolve which material to apply.
#[derive(Copy, Clone, Debug, PartialEq, Eq, Hash, Structural)]
pub enum FaceRole {
    All,
    Top,
    Bottom,
    Side,
}

/// Shape of a block, used by the mesher to select emitters.
#[derive(Clone, Debug)]
pub enum Shape {
    Cube,
    AxisCube { axis_from: String },
    Slab { half_from: String },
    Stairs { facing_from: String, half_from: String },
    /// A shape that emits no geometry.
    Invisible,
}

} // verus!
