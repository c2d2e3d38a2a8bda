use geist::coords::{chunk_coords_within_radius, probe_extent, ChunkCoord};
use geist::inventory::{job_hash, neighbor_mask, ChunkEntry, ChunkInventory, ChunkOccupancy, MeshNeighbors, ResidentStats};
use geist::tabs::DebugStats;
use geist::session::ChunkLifecycle;

fn c(x: i32, y: i32, z: i32) -> ChunkCoord {
    ChunkCoord::new(x, y, z)
}

#[test]
fn loading_then_ready() {
    let mut inv = ChunkInventory::new();
    inv.mark_loading(c(0, 0, 0));
    assert!(!inv.is_ready(c(0, 0, 0)));
    assert!(inv.get(&c(0, 0, 0)).is_none());
    assert_eq!(inv.ready_len(), 0);
    inv.mark_ready(c(0, 0, 0), ChunkOccupancy::Populated, None, 4, Some(vec![1, 2]));
    assert!(inv.is_ready(c(0, 0, 0)));
    let e = inv.get(&c(0, 0, 0)).unwrap();
    assert_eq!(e.built_rev, 4);
    assert!(e.has_blocks());
    assert_eq!(e.column_profile_blob, Some(vec![1, 2]));
    assert_eq!(inv.ready_len(), 1);
}

#[test]
fn mark_loading_resets_a_ready_slot() {
    let mut inv = ChunkInventory::new();
    inv.mark_ready(c(1, 0, 0), ChunkOccupancy::Populated, None, 9, None);
    inv.set_mesh_ready(c(1, 0, 0), true);
    inv.set_lighting_ready(c(1, 0, 0), true);
    assert!(inv.mesh_ready(c(1, 0, 0)));
    inv.mark_loading(c(1, 0, 0));
    assert!(!inv.is_ready(c(1, 0, 0)));
    assert!(!inv.mesh_ready(c(1, 0, 0)));
    assert_eq!(inv.coords_any(), vec![c(1, 0, 0)]);
}

#[test]
fn mesh_ready_needs_a_ready_chunk() {
    let mut inv = ChunkInventory::new();
    inv.mark_loading(c(0, 1, 0));
    inv.set_mesh_ready(c(0, 1, 0), true);
    assert!(!inv.mesh_ready(c(0, 1, 0)));
    assert!(!inv.mesh_ready(c(5, 5, 5)));
}

#[test]
fn missing_chunks_are_forgotten() {
    let mut inv = ChunkInventory::new();
    inv.mark_ready(c(0, 0, 0), ChunkOccupancy::Empty, None, 1, None);
    inv.mark_ready(c(0, 0, 1), ChunkOccupancy::Empty, None, 1, None);
    inv.mark_loading(c(0, 0, 2));
    assert_eq!(inv.ready_len(), 2);
    let mut ready = inv.ready_coords();
    ready.sort_by_key(|k| (k.cx, k.cy, k.cz));
    assert_eq!(ready, vec![c(0, 0, 0), c(0, 0, 1)]);
    inv.mark_missing(c(0, 0, 0));
    assert_eq!(inv.ready_len(), 1);
    assert_eq!(inv.coords_any().len(), 2);
    assert!(!inv.is_ready(c(0, 0, 0)));
}

#[test]
fn column_profile_can_be_cleared() {
    let mut inv = ChunkInventory::new();
    inv.mark_ready(c(2, 0, 2), ChunkOccupancy::Populated, None, 3, Some(vec![7]));
    inv.clear_column_profile(&c(2, 0, 2));
    assert_eq!(inv.get(&c(2, 0, 2)).unwrap().column_profile_blob, None);
}

#[test]
fn entry_defaults() {
    let e = ChunkEntry::loading();
    assert_eq!(e.lifecycle, ChunkLifecycle::Loading);
    assert_eq!(e.occupancy_or_empty(), ChunkOccupancy::Empty);
    assert!(!e.has_blocks());
    assert!(!e.is_ready());
}

#[test]
fn neighbor_mask_reads_meshed_neighbors() {
    let mut inv = ChunkInventory::new();
    inv.mark_ready(c(-1, 0, 0), ChunkOccupancy::Populated, None, 1, None);
    inv.set_mesh_ready(c(-1, 0, 0), true);
    inv.mark_ready(c(0, 1, 0), ChunkOccupancy::Populated, None, 1, None);
    inv.set_mesh_ready(c(0, 1, 0), true);
    inv.mark_ready(c(0, 0, 1), ChunkOccupancy::Populated, None, 1, None);
    let m = neighbor_mask(&inv, c(0, 0, 0));
    assert_eq!(
        m,
        MeshNeighbors { neg_x: true, pos_x: false, neg_y: false, pos_y: true, neg_z: false, pos_z: false }
    );
}

#[test]
fn job_hash_values() {
    assert_eq!(job_hash(c(0, 0, 0), 0, MeshNeighbors::default()), 16482136530319305039);
    let n = MeshNeighbors { neg_x: true, pos_x: false, neg_y: false, pos_y: true, neg_z: false, pos_z: true };
    assert_eq!(job_hash(c(1, -2, 3), 7, n), 16085678370666025187);
    let all = MeshNeighbors { neg_x: true, pos_x: true, neg_y: true, pos_y: true, neg_z: true, pos_z: true };
    assert_eq!(job_hash(c(-1, 0, 0), 1, all), 1051616885659361686);
}

#[test]
fn probe_of_radius_one() {
    let v = chunk_coords_within_radius(c(0, 0, 0), 1, 1);
    assert_eq!(
        v,
        vec![c(0, -1, 0), c(0, 0, -1), c(-1, 0, 0), c(0, 0, 0), c(1, 0, 0), c(0, 0, 1), c(0, 1, 0)]
    );
}

#[test]
fn probe_flat_and_negative() {
    let v = chunk_coords_within_radius(c(10, 5, -3), 2, 0);
    assert_eq!(v.len(), 13);
    assert!(v.iter().all(|k| k.cy == 5));
    assert_eq!(v[0], c(10, 5, -5));
    assert!(chunk_coords_within_radius(c(0, 0, 0), -1, 3).is_empty());
    assert_eq!(chunk_coords_within_radius(c(0, 0, 0), 0, 0), vec![c(0, 0, 0)]);
}

#[test]
fn probe_extent_rules() {
    assert_eq!(probe_extent(0, None, 8), (1, 1));
    assert_eq!(probe_extent(-3, None, 8), (1, 1));
    assert_eq!(probe_extent(4, None, 8), (4, 4));
    assert_eq!(probe_extent(4, Some(10), 8), (4, 4));
    assert_eq!(probe_extent(6, Some(10), 2), (6, 2));
    assert_eq!(probe_extent(3, Some(0), 4), (3, 1));
    assert_eq!(probe_extent(3, Some(0), 1), (3, 0));
    assert_eq!(probe_extent(3, Some(-2), 0), (3, 0));
}

#[test]
fn resident_stats_count_ready_chunks() {
    let mut inv = ChunkInventory::new();
    inv.mark_ready(c(0, 0, 0), ChunkOccupancy::Populated, None, 1, None);
    inv.mark_ready(c(0, 1, 0), ChunkOccupancy::Empty, None, 1, None);
    inv.mark_ready(c(2, 1, 0), ChunkOccupancy::Populated, None, 1, None);
    inv.mark_loading(c(5, 5, 5));
    let s = inv.resident_stats();
    assert_eq!(
        s,
        ResidentStats { ready: 3, nonempty: 2, unique_cx: 2, unique_cy: 2, unique_cz: 1 }
    );
}

#[test]
fn debug_stats_keep_tick_figures_on_reset() {
    let mut d = DebugStats::default();
    d.draw_calls = 9;
    d.queued_events_total = 4;
    d.queued_events_by = vec![("Tick".to_string(), 4)];
    d.intents_size = 2;
    d.record_chunks(ResidentStats { ready: 3, nonempty: 1, unique_cx: 2, unique_cy: 1, unique_cz: 3 }, 7);
    assert_eq!(d.loaded_chunks, 3);
    assert_eq!(d.chunk_resident_total, 3);
    assert_eq!(d.chunk_unique_cz, 3);
    assert_eq!(d.render_cache_chunks, 7);
    assert_eq!(d.draw_calls, 9);
    d.reset_render();
    assert_eq!(d.draw_calls, 0);
    assert_eq!(d.loaded_chunks, 0);
    assert_eq!(d.queued_events_total, 4);
    assert_eq!(d.queued_events_by, vec![("Tick".to_string(), 4)]);
    assert_eq!(d.intents_size, 2);
}
