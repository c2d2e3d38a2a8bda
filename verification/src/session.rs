//! Small records passed between the game loop, its event queue and its
//! workers.
use vstd::prelude::*;
use crate::types::Block;

verus! {

/// Whether a chunk slot holds a finished chunk.
#[derive(Clone, Copy, Debug, PartialEq, Eq, Structural)]
pub enum ChunkLifecycle {
    Loading,
    Ready,
}

impl ChunkLifecycle {
    pub fn is_ready(self) -> (r: bool)
        ensures
            r == (self == ChunkLifecycle::Ready),
    {
        match self {
            ChunkLifecycle::Ready => true,
            ChunkLifecycle::Loading => false,
        }
    }
}

/// Progress of a chunk's finalization: which lower neighbors have
/// published their shared faces, and whether finalizing was asked for or done.
#[derive(Clone, Copy, Debug, Default)]
pub struct FinalizeState {
    pub owner_neg_x_ready: bool,
    pub owner_neg_y_ready: bool,
    pub owner_neg_z_ready: bool,
    pub finalize_requested: bool,
    pub finalized: bool,
}

impl FinalizeState {
    /// Whether the chunk may be finalized now: not finalized or asked for
    /// yet, all three lower neighbors have published, the chunk is meshed,
    /// and no job for it is in flight.
    pub open spec fn may_finalize(&self, mesh_ready: bool, inflight: bool) -> bool {
        &&& !self.finalized
        &&& !self.finalize_requested
        &&& self.owner_neg_x_ready && self.owner_neg_y_ready && self.owner_neg_z_ready
        &&& mesh_ready
        &&& !inflight
    }

    /// Decides whether to ask for the chunk's finalizing rebuild, and
    /// records the request when it does.
    pub fn schedule_finalize(&mut self, mesh_ready: bool, inflight: bool) -> (r: bool)
        ensures
            r == old(self).may_finalize(mesh_ready, inflight),
            *final(self) == if r { FinalizeState { finalize_requested: true, ..*old(self) } } else { *old(self) },
    {
        if self.finalized || self.finalize_requested {
            return false;
        }
        if !(self.owner_neg_x_ready && self.owner_neg_y_ready && self.owner_neg_z_ready) {
            return false;
        }
        if !mesh_ready {
            return false;
        }
        if inflight {
            return false;
        }
        self.finalize_requested = true;
        true
    }
}

/// Why a chunk rebuild was requested.
#[derive(Clone, Copy, Debug, PartialEq, Eq, Structural)]
pub enum RebuildCause {
    Edit,
    LightingBorder,
    StreamLoad,
}

/// Identifier of a structure (a movable block body).
pub type StructureId = u32;

/// A request to rebuild a structure's mesh from its blocks and edits.
pub struct StructureBuildJob {
    pub id: StructureId,
    pub rev: u64,
    pub sx: usize,
    pub sy: usize,
    pub sz: usize,
    pub base_blocks: Vec<Block>,
    pub edits: Vec<((i32, i32, i32), Block)>,
}

} // verus!
