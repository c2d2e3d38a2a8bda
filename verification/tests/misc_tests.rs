use geist::assets::{blocks_path, hotbar_path, join, load_block_registry, materials_path, schematics_dir, shaders_dir, textures_dir};
use geist::raycast::RayHit;
use geist::registry::{BlockRegistry, Material, MaterialCatalog};
use geist::session::{ChunkLifecycle, RebuildCause};
use geist::snap::SnapArgs;
use geist::sun::build_sun_shell;
use geist::tabs::{DebugOverlayTab, DebugStats, DiagnosticsTab};
use geist::types::Block;
use geist::worldgen::{default_sub_names, default_top_names, Flat};

#[test]
fn asset_paths_under_root() {
    assert_eq!(materials_path("/game"), "/game/assets/voxels/materials.toml");
    assert_eq!(blocks_path("/game/"), "/game/assets/voxels/blocks.toml");
    assert_eq!(hotbar_path("."), "./assets/voxels/hotbar.toml");
    assert_eq!(textures_dir(""), "assets/blocks");
    assert_eq!(shaders_dir("a"), "a/assets/shaders");
    assert_eq!(schematics_dir("a"), "a/schematics");
    assert_eq!(join("root", "x/y"), "root/x/y");
}

#[test]
fn registry_textures_resolve_against_root() {
    let mut reg = BlockRegistry::new();
    reg.materials = MaterialCatalog {
        materials: vec![Material {
            name: "stone".to_string(),
            texture_candidates: vec!["blocks/stone.png".to_string(), "/abs/stone.png".to_string()],
        }],
    };
    let r = load_block_registry(Some(reg), "/assets");
    assert_eq!(r.materials.materials[0].texture_candidates, vec!["/assets/blocks/stone.png".to_string(), "/abs/stone.png".to_string()]);
    let empty = load_block_registry(None, "/assets");
    assert!(empty.blocks.is_empty());
    assert!(empty.materials.materials.is_empty());
}

#[test]
fn overlay_tabs_round_trip() {
    for i in 0..3 {
        assert_eq!(DebugOverlayTab::from_index(i).as_index(), i);
        assert_eq!(DiagnosticsTab::from_index(i).as_index(), i);
    }
    assert_eq!(DebugOverlayTab::from_index(7), DebugOverlayTab::EventQueue);
    assert_eq!(DiagnosticsTab::from_index(3), DiagnosticsTab::FrameStats);
    assert_eq!(DebugOverlayTab::TerrainPipeline.title(), "Terrain Pipeline");
    assert_eq!(DiagnosticsTab::AttachmentDebug.title(), "Attachment Debug");
    assert_eq!(DebugOverlayTab::default(), DebugOverlayTab::EventQueue);
    assert_eq!(DiagnosticsTab::default(), DiagnosticsTab::FrameStats);
    let s = DebugStats::default();
    assert_eq!(s.draw_calls, 0);
    assert!(s.queued_events_by.is_empty());
}

#[test]
fn sun_is_a_hollow_shell() {
    let fill = Block { id: 9, state: 0 };
    let blocks = build_sun_shell(fill);
    assert_eq!(blocks.len(), 48 * 48 * 48);
    let at = |x: usize, y: usize, z: usize| blocks[(y * 48 + z) * 48 + x];
    // the center is hollow, the cube corners are outside
    assert_eq!(at(24, 24, 24), Block { id: 0, state: 0 });
    assert_eq!(at(0, 0, 0), Block { id: 0, state: 0 });
    // the outermost layer of the cube lies beyond the radius
    assert_eq!(at(0, 23, 23), Block { id: 0, state: 0 });
    // the shell near the middle of each face of the cube
    assert_eq!(at(1, 23, 23), fill);
    assert_eq!(at(46, 24, 24), fill);
    assert_eq!(at(23, 1, 24), fill);
    // the shell is 2.5 blocks thick
    assert_eq!(at(2, 23, 23), fill);
    assert_eq!(at(3, 23, 23), Block { id: 0, state: 0 });
    let filled = blocks.iter().filter(|b| **b == fill).count();
    assert_eq!(filled, 15064);
}

#[test]
fn small_records() {
    assert!(ChunkLifecycle::Ready.is_ready());
    assert!(!ChunkLifecycle::Loading.is_ready());
    assert_ne!(RebuildCause::Edit, RebuildCause::StreamLoad);
    let hit = RayHit::from_step(5, 6, 7, 4, 6, 7);
    assert_eq!((hit.nx, hit.ny, hit.nz), (-1, 0, 0));
    let hit = RayHit::from_step(5, 6, 7, 5, 7, 7);
    assert_eq!((hit.nx, hit.ny, hit.nz), (0, 1, 0));
    let hit = RayHit::from_step(5, 6, 7, 5, 6, 8);
    assert_eq!((hit.nx, hit.ny, hit.nz), (0, 0, 1));
    assert_eq!((hit.px, hit.py, hit.pz), (5, 6, 8));
    let hit = RayHit::from_step(1, 1, 1, 1, 1, 1);
    assert_eq!((hit.nx, hit.ny, hit.nz), (0, 0, 0));
    let a = SnapArgs::default();
    assert_eq!((a.width, a.height, a.angles, a.seed), (512, 512, 8, 1337));
    assert_eq!(a.world_config, "assets/worldgen/worldgen.toml");
    assert_eq!(Flat::default().thickness, 1);
    assert_eq!(default_top_names().mid, "grass");
    assert_eq!(default_sub_names().deep, "stone");
}

#[test]
fn perf_window_keeps_the_newest_samples() {
    let mut q: std::collections::VecDeque<u32> = std::collections::VecDeque::new();
    for i in 0..205u32 {
        geist::tabs::perf_push(&mut q, i);
    }
    assert_eq!(q.len(), 200);
    assert_eq!(q.front(), Some(&5));
    assert_eq!(q.back(), Some(&204));
}
