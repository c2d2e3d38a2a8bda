//! Tabs of the debug and diagnostics overlays, and the per-frame debug
//! counters the overlays show.
use vstd::prelude::*;
use std::collections::VecDeque;
use crate::inventory::ResidentStats;

verus! {

/// Tabs of the debug overlay window.
#[derive(Clone, Copy, Debug, PartialEq, Eq, Structural)]
pub enum DebugOverlayTab {
    EventQueue,
    IntentQueue,
    TerrainPipeline,
}

impl DebugOverlayTab {
    pub open spec fn spec_index(self) -> usize {
        match self {
            DebugOverlayTab::EventQueue => 0,
            DebugOverlayTab::IntentQueue => 1,
            DebugOverlayTab::TerrainPipeline => 2,
        }
    }

    /// The tab at a position; positions past the last tab give the first.
    pub open spec fn spec_from_index(index: usize) -> DebugOverlayTab {
        if index == 1 {
            DebugOverlayTab::IntentQueue
        } else if index == 2 {
            DebugOverlayTab::TerrainPipeline
        } else {
            DebugOverlayTab::EventQueue
        }
    }

    pub fn title(self) -> (r: &'static str)
        ensures
            r@ == match self {
                DebugOverlayTab::EventQueue => "Event Queue"@,
                DebugOverlayTab::IntentQueue => "Intent Queue"@,
                DebugOverlayTab::TerrainPipeline => "Terrain Pipeline"@,
            },
    {
        match self {
            DebugOverlayTab::EventQueue => "Event Queue",
            DebugOverlayTab::IntentQueue => "Intent Queue",
            DebugOverlayTab::TerrainPipeline => "Terrain Pipeline",
        }
    }

    pub fn as_index(self) -> (r: usize)
        ensures
            r == self.spec_index(),
    {
        match self {
            DebugOverlayTab::EventQueue => 0,
            DebugOverlayTab::IntentQueue => 1,
            DebugOverlayTab::TerrainPipeline => 2,
        }
    }

    pub fn from_index(index: usize) -> (r: DebugOverlayTab)
        ensures
            r == Self::spec_from_index(index),
    {
        if index == 1 {
            DebugOverlayTab::IntentQueue
        } else if index == 2 {
            DebugOverlayTab::TerrainPipeline
        } else {
            DebugOverlayTab::EventQueue
        }
    }
}

impl Default for DebugOverlayTab {
    fn default() -> (r: DebugOverlayTab)
        ensures
            r == DebugOverlayTab::EventQueue,
    {
        DebugOverlayTab::EventQueue
    }
}

/// Tabs of the diagnostics window.
#[derive(Clone, Copy, Debug, PartialEq, Eq, Structural)]
pub enum DiagnosticsTab {
    FrameStats,
    RuntimeStats,
    AttachmentDebug,
}

impl DiagnosticsTab {
    pub open spec fn spec_index(self) -> usize {
        match self {
            DiagnosticsTab::FrameStats => 0,
            DiagnosticsTab::RuntimeStats => 1,
            DiagnosticsTab::AttachmentDebug => 2,
        }
    }

    /// The tab at a position; positions past the last tab give the first.
    pub open spec fn spec_from_index(index: usize) -> DiagnosticsTab {
        if index == 1 {
            DiagnosticsTab::RuntimeStats
        } else if index == 2 {
            DiagnosticsTab::AttachmentDebug
        } else {
            DiagnosticsTab::FrameStats
        }
    }

    pub fn title(self) -> (r: &'static str)
        ensures
            r@ == match self {
                DiagnosticsTab::FrameStats => "Frame Stats"@,
                DiagnosticsTab::RuntimeStats => "Runtime Stats"@,
                DiagnosticsTab::AttachmentDebug => "Attachment Debug"@,
            },
    {
        match self {
            DiagnosticsTab::FrameStats => "Frame Stats",
            DiagnosticsTab::RuntimeStats => "Runtime Stats",
            DiagnosticsTab::AttachmentDebug => "Attachment Debug",
        }
    }

    pub fn as_index(self) -> (r: usize)
        ensures
            r == self.spec_index(),
    {
        match self {
            DiagnosticsTab::FrameStats => 0,
            DiagnosticsTab::RuntimeStats => 1,
            DiagnosticsTab::AttachmentDebug => 2,
        }
    }

    pub fn from_index(index: usize) -> (r: DiagnosticsTab)
        ensures
            r == Self::spec_from_index(index),
    {
        if index == 1 {
            DiagnosticsTab::RuntimeStats
        } else if index == 2 {
            DiagnosticsTab::AttachmentDebug
        } else {
            DiagnosticsTab::FrameStats
        }
    }
}

impl Default for DiagnosticsTab {
    fn default() -> (r: DiagnosticsTab)
        ensures
            r == DiagnosticsTab::FrameStats,
    {
        DiagnosticsTab::FrameStats
    }
}

/// A tab's position leads back to the tab, and every position below the
/// tab count is some tab's position.
pub proof fn lemma_tab_index_roundtrip(t: DebugOverlayTab, d: DiagnosticsTab, i: usize)
    ensures
        DebugOverlayTab::spec_from_index(t.spec_index()) == t,
        DiagnosticsTab::spec_from_index(d.spec_index()) == d,
        i < 3 ==> DebugOverlayTab::spec_from_index(i).spec_index() == i,
        i < 3 ==> DiagnosticsTab::spec_from_index(i).spec_index() == i,
        t.spec_index() < 3 && d.spec_index() < 3,
{
}

/// Counters gathered while rendering a frame, for the debug overlay.
pub struct DebugStats {
    pub total_vertices: usize,
    pub total_triangles: usize,
    pub chunks_rendered: usize,
    pub chunks_culled: usize,
    pub structures_rendered: usize,
    pub structures_culled: usize,
    pub draw_calls: usize,
    pub queued_events_total: usize,
    pub queued_events_by: Vec<(String, usize)>,
    pub intents_size: usize,
    pub intents_by_cause: Vec<(String, usize)>,
    pub intents_by_radius: Vec<(String, usize)>,
    pub loaded_chunks: usize,
    pub chunk_resident_total: usize,
    pub chunk_resident_nonempty: usize,
    pub chunk_unique_cx: usize,
    pub chunk_unique_cy: usize,
    pub chunk_unique_cz: usize,
    pub render_cache_chunks: usize,
    pub lighting_border_chunks: usize,
    pub lighting_emitter_chunks: usize,
    pub lighting_micro_chunks: usize,
    pub edit_chunk_entries: usize,
    pub edit_block_edits: usize,
    pub edit_rev_entries: usize,
    pub edit_built_entries: usize,
}

impl DebugStats {
    /// All counters zero and all breakdowns empty.
    pub open spec fn is_zero(&self) -> bool {
        &&& self.total_vertices == 0 && self.total_triangles == 0 && self.chunks_rendered == 0
        &&& self.chunks_culled == 0 && self.structures_rendered == 0 && self.structures_culled == 0
        &&& self.draw_calls == 0 && self.queued_events_total == 0 && self.queued_events_by@.len() == 0
        &&& self.intents_size == 0 && self.intents_by_cause@.len() == 0 && self.intents_by_radius@.len() == 0
        &&& self.loaded_chunks == 0 && self.chunk_resident_total == 0 && self.chunk_resident_nonempty == 0
        &&& self.chunk_unique_cx == 0 && self.chunk_unique_cy == 0 && self.chunk_unique_cz == 0
        &&& self.render_cache_chunks == 0 && self.lighting_border_chunks == 0 && self.lighting_emitter_chunks == 0
        &&& self.lighting_micro_chunks == 0 && self.edit_chunk_entries == 0 && self.edit_block_edits == 0
        &&& self.edit_rev_entries == 0 && self.edit_built_entries == 0
    }
}

impl Default for DebugStats {
    fn default() -> (r: DebugStats)
        ensures
            r.is_zero(),
    {
        DebugStats {
            total_vertices: 0,
            total_triangles: 0,
            chunks_rendered: 0,
            chunks_culled: 0,
            structures_rendered: 0,
            structures_culled: 0,
            draw_calls: 0,
            queued_events_total: 0,
            queued_events_by: Vec::new(),
            intents_size: 0,
            intents_by_cause: Vec::new(),
            intents_by_radius: Vec::new(),
            loaded_chunks: 0,
            chunk_resident_total: 0,
            chunk_resident_nonempty: 0,
            chunk_unique_cx: 0,
            chunk_unique_cy: 0,
            chunk_unique_cz: 0,
            render_cache_chunks: 0,
            lighting_border_chunks: 0,
            lighting_emitter_chunks: 0,
            lighting_micro_chunks: 0,
            edit_chunk_entries: 0,
            edit_block_edits: 0,
            edit_rev_entries: 0,
            edit_built_entries: 0,
        }
    }
}

impl DebugStats {
    /// Clears the frame's counters, keeping the queue and intent figures
    /// that are gathered once per tick.
    pub fn reset_render(&mut self)
        ensures
            final(self).queued_events_total == old(self).queued_events_total,
            final(self).queued_events_by == old(self).queued_events_by,
            final(self).intents_size == old(self).intents_size,
            final(self).intents_by_cause == old(self).intents_by_cause,
            final(self).intents_by_radius == old(self).intents_by_radius,
            final(self).is_zero_except_tick_figures(),
    {
        let mut q_by: Vec<(String, usize)> = Vec::new();
        std::mem::swap(&mut q_by, &mut self.queued_events_by);
        let mut by_cause: Vec<(String, usize)> = Vec::new();
        std::mem::swap(&mut by_cause, &mut self.intents_by_cause);
        let mut by_radius: Vec<(String, usize)> = Vec::new();
        std::mem::swap(&mut by_radius, &mut self.intents_by_radius);
        let q_total = self.queued_events_total;
        let intents = self.intents_size;
        *self = DebugStats::default();
        self.queued_events_total = q_total;
        self.queued_events_by = q_by;
        self.intents_size = intents;
        self.intents_by_cause = by_cause;
        self.intents_by_radius = by_radius;
    }

    /// Every counter but the queue and intent figures is zero.
    pub open spec fn is_zero_except_tick_figures(&self) -> bool {
        &&& self.total_vertices == 0 && self.total_triangles == 0 && self.chunks_rendered == 0
        &&& self.chunks_culled == 0 && self.structures_rendered == 0 && self.structures_culled == 0
        &&& self.draw_calls == 0
        &&& self.loaded_chunks == 0 && self.chunk_resident_total == 0 && self.chunk_resident_nonempty == 0
        &&& self.chunk_unique_cx == 0 && self.chunk_unique_cy == 0 && self.chunk_unique_cz == 0
        &&& self.render_cache_chunks == 0 && self.lighting_border_chunks == 0 && self.lighting_emitter_chunks == 0
        &&& self.lighting_micro_chunks == 0 && self.edit_chunk_entries == 0 && self.edit_block_edits == 0
        &&& self.edit_rev_entries == 0 && self.edit_built_entries == 0
    }

    /// Records the figures on the ready chunks and the number of chunks
    /// with cached render data.
    pub fn record_chunks(&mut self, s: ResidentStats, render_cache_chunks: usize)
        ensures
            final(self).loaded_chunks == s.ready,
            final(self).chunk_resident_total == s.ready,
            final(self).chunk_resident_nonempty == s.nonempty,
            final(self).chunk_unique_cx == s.unique_cx,
            final(self).chunk_unique_cy == s.unique_cy,
            final(self).chunk_unique_cz == s.unique_cz,
            final(self).render_cache_chunks == render_cache_chunks,
            final(self).total_vertices == old(self).total_vertices,
            final(self).total_triangles == old(self).total_triangles,
            final(self).chunks_rendered == old(self).chunks_rendered,
            final(self).chunks_culled == old(self).chunks_culled,
            final(self).structures_rendered == old(self).structures_rendered,
            final(self).structures_culled == old(self).structures_culled,
            final(self).draw_calls == old(self).draw_calls,
            final(self).queued_events_total == old(self).queued_events_total,
            final(self).queued_events_by == old(self).queued_events_by,
            final(self).intents_size == old(self).intents_size,
            final(self).intents_by_cause == old(self).intents_by_cause,
            final(self).intents_by_radius == old(self).intents_by_radius,
            final(self).lighting_border_chunks == old(self).lighting_border_chunks,
            final(self).lighting_emitter_chunks == old(self).lighting_emitter_chunks,
            final(self).lighting_micro_chunks == old(self).lighting_micro_chunks,
            final(self).edit_chunk_entries == old(self).edit_chunk_entries,
            final(self).edit_block_edits == old(self).edit_block_edits,
            final(self).edit_rev_entries == old(self).edit_rev_entries,
            final(self).edit_built_entries == old(self).edit_built_entries,
    {
        self.loaded_chunks = s.ready;
        self.chunk_resident_total = s.ready;
        self.chunk_resident_nonempty = s.nonempty;
        self.chunk_unique_cx = s.unique_cx;
        self.chunk_unique_cy = s.unique_cy;
        self.chunk_unique_cz = s.unique_cz;
        self.render_cache_chunks = render_cache_chunks;
    }
}

/// The length of the rolling windows of timing samples.
pub const PERF_WIN_CAP: usize = 200;

/// Appends a timing sample to a rolling window, dropping the oldest one
/// when the window is over `PERF_WIN_CAP` long.
pub fn perf_push(q: &mut VecDeque<u32>, v: u32)
    ensures
        final(q)@ == if old(q)@.len() + 1 > PERF_WIN_CAP {
            old(q)@.push(v).drop_first()
        } else {
            old(q)@.push(v)
        },
{
    broadcast use vstd::std_specs::vecdeque::group_vec_dequeue_axioms;
    q.push_back(v);
    if q.len() > PERF_WIN_CAP {
        let _ = q.pop_front();
        assert(q@ =~= old(q)@.push(v).drop_first());
    }
}

} // verus!
