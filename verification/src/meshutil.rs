use vstd::prelude::*;
use crate::types::{Block, FaceRole, Shape};
use crate::registry::BlockRegistry;

verus! {

/// The six axis-aligned faces of a voxel, in the order used by occlusion masks.
#[derive(Copy, Clone, Debug, Eq, PartialEq, Hash, Structural)]
pub enum Face {
    PosY,
    NegY,
    PosX,
    NegX,
    PosZ,
    NegZ,
}

impl Face {
    /// Position of the face in the canonical order `PosY, NegY, PosX, NegX, PosZ, NegZ`.
    pub open spec fn spec_index(self) -> nat {
        match self {
            Face::PosY => 0,
            Face::NegY => 1,
            Face::PosX => 2,
            Face::NegX => 3,
            Face::PosZ => 4,
            Face::NegZ => 5,
        }
    }

    pub open spec fn spec_from_index(i: usize) -> Face {
        if i == 1 {
            Face::NegY
        } else if i == 2 {
            Face::PosX
        } else if i == 3 {
            Face::NegX
        } else if i == 4 {
            Face::PosZ
        } else if i == 5 {
            Face::NegZ
        } else {
            Face::PosY
        }
    }

    pub open spec fn spec_delta(self) -> (i32, i32, i32) {
        match self {
            Face::PosY => (0, 1, 0),
            Face::NegY => (0i32, -1i32, 0i32),
            Face::PosX => (1, 0, 0),
            Face::NegX => (-1i32, 0i32, 0i32),
            Face::PosZ => (0, 0, 1),
            Face::NegZ => (0i32, 0i32, -1i32),
        }
    }

    pub open spec fn spec_role(self) -> FaceRole {
        match self {
            Face::PosY => FaceRole::Top,
            Face::NegY => FaceRole::Bottom,
            _ => FaceRole::Side,
        }
    }

    pub fn index(self) -> (r: usize)
        ensures
            r == self.spec_index(),
    {
        match self {
            Face::PosY => 0,
            Face::NegY => 1,
            Face::PosX => 2,
            Face::NegX => 3,
            Face::PosZ => 4,
            Face::NegZ => 5,
        }
    }

    /// Face for an index; indices past 5 map to `PosY`.
    pub fn from_index(i: usize) -> (f: Face)
        ensures
            f == Face::spec_from_index(i),
    {
        match i {
            0 => Face::PosY,
            1 => Face::NegY,
            2 => Face::PosX,
            3 => Face::NegX,
            4 => Face::PosZ,
            5 => Face::NegZ,
            _ => Face::PosY,
        }
    }

    /// Unit step from a voxel to the neighbor across this face.
    pub fn delta(self) -> (d: (i32, i32, i32))
        ensures
            d == self.spec_delta(),
    {
        match self {
            Face::PosY => (0, 1, 0),
            Face::NegY => (0, -1, 0),
            Face::PosX => (1, 0, 0),
            Face::NegX => (-1, 0, 0),
            Face::PosZ => (0, 0, 1),
            Face::NegZ => (0, 0, -1),
        }
    }

    /// Material role of the face: top, bottom, or side.
    pub fn role(self) -> (r: FaceRole)
        ensures
            r == self.spec_role(),
    {
        match self {
            Face::PosY => FaceRole::Top,
            Face::NegY => FaceRole::Bottom,
            _ => FaceRole::Side,
        }
    }
}

/// Converting a face to its index and back gives the same face.
pub proof fn lemma_face_index_roundtrip(f: Face)
    ensures
        Face::spec_from_index(f.spec_index() as usize) == f,
        f.spec_index() < 6,
{
}

/// Whether a block fills its whole cell: a registered cube or axis cube.
pub fn is_full_cube(reg: &BlockRegistry, nb: Block) -> (r: bool)
    ensures
        r == match reg.spec_get(nb.id) {
            Some(t) => t.shape is Cube || t.shape is AxisCube,
            None => false,
        },
{
    match reg.get(nb.id) {
        Some(t) => match t.shape {
            Shape::Cube | Shape::AxisCube { .. } => true,
            _ => false,
        },
        None => false,
    }
}

} // verus!
