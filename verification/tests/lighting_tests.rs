use geist::chunkbuf::ChunkBuf;
use geist::config::{BlockDef, BlocksConfig};
use geist::lighting::{LightBorders, LightGrid, LightingStore};
use geist::registry::{BlockRegistry, MaterialCatalog};
use geist::types::Block;

fn def(name: &str, solid: bool, emission: u8) -> BlockDef {
    BlockDef {
        name: name.to_string(),
        id: None,
        solid: Some(solid),
        blocks_skylight: None,
        propagates_light: None,
        emission: Some(emission),
        light_profile: None,
        light: None,
        shape: None,
        materials: None,
        state_schema: None,
        seam: None,
    }
}

fn registry() -> BlockRegistry {
    BlockRegistry::from_configs(
        MaterialCatalog { materials: vec![] },
        BlocksConfig {
            blocks: vec![def("air", false, 0), def("stone", true, 0), def("glowstone", true, 200)],
            lighting: None,
            unknown_block: None,
        },
    )
}

const AIR: Block = Block { id: 0, state: 0 };
const STONE: Block = Block { id: 1, state: 0 };

fn buf(sx: usize, sy: usize, sz: usize, f: impl Fn(usize, usize, usize) -> Block) -> ChunkBuf {
    let mut blocks = Vec::new();
    for y in 0..sy {
        for z in 0..sz {
            for x in 0..sx {
                blocks.push(f(x, y, z));
            }
        }
    }
    ChunkBuf::from_blocks_local(0, 0, sx, sy, sz, blocks)
}

#[test]
fn open_sky_lights_everything() {
    let reg = registry();
    let b = buf(2, 3, 2, |_, _, _| AIR);
    let store = LightingStore::new(2, 3, 2);
    let lg = LightGrid::compute_with_borders_buf(&b, &store, &reg);
    assert_eq!(lg.sample_face_local(0, 0, 0, 0), 255);
    assert_eq!(lg.sample_face_local(1, 2, 1, 0), 255);
    assert_eq!(lg.sample_face_local(0, 0, 0, 1), 0);
    assert_eq!(lg.sample_face_local(0, 1, 0, 2), 255);
}

#[test]
fn roof_blocks_sky_and_emitter_light_fades() {
    let reg = registry();
    // stone roof at y = 1 over a row of air cells along z
    let b = buf(1, 2, 4, |_, y, _| if y == 1 { STONE } else { AIR });
    let mut store = LightingStore::new(1, 2, 4);
    let lg = LightGrid::compute_with_borders_buf(&b, &store, &reg);
    assert_eq!(lg.sample_face_local(0, 0, 1, 5), 0);
    store.add_emitter_world(0, 0, 0, 200);
    let lg = LightGrid::compute_with_borders_buf(&b, &store, &reg);
    assert_eq!(lg.sample_face_local(0, 0, 1, 5), 200);
    assert_eq!(lg.sample_face_local(0, 0, 2, 5), 168);
    assert_eq!(lg.sample_face_local(0, 0, 3, 5), 136);
    store.remove_emitter_world(0, 0, 0);
    let lg = LightGrid::compute_with_borders_buf(&b, &store, &reg);
    assert_eq!(lg.sample_face_local(0, 0, 3, 5), 0);
}

#[test]
fn glowstone_block_emits() {
    let reg = registry();
    let glow = Block { id: 2, state: 0 };
    let b = buf(1, 2, 3, |_, y, z| if y == 1 { STONE } else if z == 0 { glow } else { AIR });
    let store = LightingStore::new(1, 2, 3);
    let lg = LightGrid::compute_with_borders_buf(&b, &store, &reg);
    assert_eq!(lg.sample_face_local(0, 0, 1, 5), 200);
    assert_eq!(lg.sample_face_local(0, 0, 2, 5), 168);
}

#[test]
fn stored_borders_reach_the_neighbor() {
    let reg = registry();
    let b = buf(2, 2, 2, |_, y, _| if y == 1 { STONE } else { AIR });
    let mut store = LightingStore::new(2, 2, 2);
    // chunk (1, 0) exposes light 100 on its -X face
    let mut lb = LightBorders::new(2, 2, 2);
    assert!(store.update_borders(1, 0, LightBorders::new(2, 2, 2)));
    assert!(!store.update_borders(1, 0, LightBorders::new(2, 2, 2)));
    for v in lb.xn.iter_mut() {
        *v = 100;
    }
    assert!(store.update_borders(1, 0, lb));
    let nb = store.get_neighbor_borders(0, 0);
    assert_eq!(nb.xp, Some(vec![100; 4]));
    assert_eq!(nb.xn, None);
    let lg = LightGrid::compute_with_borders_buf(&b, &store, &reg);
    // the +X face of the last column sees the neighbor's plane
    assert_eq!(lg.sample_face_local(1, 0, 0, 2), 100);
    // and light entering from it spreads one step with attenuation
    assert_eq!(lg.sample_face_local(0, 0, 0, 2), 68);
    store.clear_chunk(1, 0);
    assert_eq!(store.get_neighbor_borders(0, 0).xp, None);
}

#[test]
fn emitters_are_kept_per_chunk() {
    let mut store = LightingStore::new(4, 4, 4);
    store.add_emitter_world(5, 1, -1, 10);
    store.add_emitter_world(5, 1, -1, 99);
    store.add_beacon_world(6, 2, -2, 50);
    store.add_emitter_world(0, 9, 0, 10);
    assert_eq!(store.emitters_for_chunk(1, -1), vec![(1, 1, 3, 10, false), (2, 2, 2, 50, true)]);
    assert!(store.emitters_for_chunk(0, 0).is_empty());
    store.remove_emitter_world(5, 1, -1);
    assert_eq!(store.emitters_for_chunk(1, -1), vec![(2, 2, 2, 50, true)]);
}

#[test]
fn borders_capture_the_grid_faces() {
    let reg = registry();
    let b = buf(2, 2, 2, |_, _, _| AIR);
    let store = LightingStore::new(2, 2, 2);
    let lg = LightGrid::compute_with_borders_buf(&b, &store, &reg);
    let lb = LightBorders::from_grid(&lg);
    assert_eq!(lb.sk_xn, vec![255; 4]);
    assert_eq!(lb.xp, vec![0; 4]);
    assert_eq!(lb.sk_yp.len(), 4);
}

#[test]
fn straight_beacon_beam_loses_one_per_step() {
    let reg = registry();
    let b = buf(4, 2, 1, |_, y, _| if y == 0 { AIR } else { STONE });
    let mut store = LightingStore::new(4, 2, 1);
    store.add_beacon_world(0, 0, 0, 255);
    let g = LightGrid::compute_with_borders_buf(&b, &store, &reg);
    assert_eq!(g.sample_face_local(0, 0, 0, 2), 254);
    assert_eq!(g.sample_face_local(1, 0, 0, 2), 253);
    assert_eq!(g.sample_face_local(2, 0, 0, 2), 252);
    let borders = LightBorders::from_grid(&g);
    assert_eq!(borders.bcn_xp, vec![252, 0]);
}

#[test]
fn extra_emitter_only_brightens_block_light() {
    let reg = registry();
    let b = buf(4, 2, 1, |_, y, _| if y == 0 { AIR } else { STONE });
    let mut store = LightingStore::new(4, 2, 1);
    store.add_beacon_world(0, 0, 0, 255);
    let before = LightBorders::from_grid(&LightGrid::compute_with_borders_buf(&b, &store, &reg));
    store.add_emitter_world(3, 0, 0, 200);
    let after = LightBorders::from_grid(&LightGrid::compute_with_borders_buf(&b, &store, &reg));
    assert_eq!(before.xp, vec![0, 0]);
    assert_eq!(after.xp, vec![200, 0]);
    assert_eq!(after.xn, vec![104, 0]);
    let pairs = [
        (&before.xn, &after.xn),
        (&before.xp, &after.xp),
        (&before.zn, &after.zn),
        (&before.zp, &after.zp),
        (&before.yn, &after.yn),
        (&before.yp, &after.yp),
    ];
    for (p, q) in pairs.iter() {
        assert_eq!(p.len(), q.len());
        for i in 0..p.len() {
            assert!(q[i] >= p[i]);
        }
    }
    assert_eq!(before.sk_xn, after.sk_xn);
    assert_eq!(before.sk_xp, after.sk_xp);
    assert_eq!(before.sk_zn, after.sk_zn);
    assert_eq!(before.sk_zp, after.sk_zp);
    assert_eq!(before.sk_yn, after.sk_yn);
    assert_eq!(before.sk_yp, after.sk_yp);
    assert_eq!(before.bcn_xn, after.bcn_xn);
    assert_eq!(before.bcn_xp, after.bcn_xp);
    assert_eq!(after.bcn_xp, vec![252, 0]);
    assert_eq!(before.bcn_zn, after.bcn_zn);
    assert_eq!(before.bcn_zp, after.bcn_zp);
}

#[test]
fn longer_neighbor_planes_are_read_from_their_start() {
    let reg = registry();
    let b = buf(2, 2, 2, |_, y, _| if y == 1 { STONE } else { AIR });
    let mut store = LightingStore::new(2, 2, 2);
    let mut lb = LightBorders::new(4, 4, 4);
    for v in lb.xn.iter_mut() {
        *v = 100;
    }
    assert_eq!(lb.xn.len(), 16);
    assert!(store.update_borders(1, 0, lb));
    let lg = LightGrid::compute_with_borders_buf(&b, &store, &reg);
    assert_eq!(lg.sample_face_local(1, 0, 0, 2), 100);
    assert_eq!(lg.sample_face_local(0, 0, 0, 2), 68);
}

#[test]
fn second_identical_border_update_changes_nothing() {
    let mut store = LightingStore::new(2, 2, 2);
    let mut lb = LightBorders::new(2, 2, 2);
    lb.sk_zn[1] = 7;
    let mut same = LightBorders::new(2, 2, 2);
    same.sk_zn[1] = 7;
    assert!(store.update_borders(0, 1, lb));
    assert!(!store.update_borders(0, 1, same));
    assert_eq!(store.get_neighbor_borders(0, 0).sk_zp, Some(vec![0, 7, 0, 0]));
    assert!(store.update_borders(0, 1, LightBorders::new(2, 2, 2)));
    assert_eq!(store.get_neighbor_borders(0, 0).sk_zp, Some(vec![0; 4]));
}

#[test]
fn border_beam_keeps_the_direction_it_entered_with() {
    let reg = registry();
    let b = buf(3, 2, 1, |_, y, _| if y == 0 { AIR } else { STONE });
    let mut store = LightingStore::new(3, 2, 1);
    let mut lb = LightBorders::new(3, 2, 1);
    lb.bcn_xp = vec![100, 0];
    lb.bcn_dir_xp = vec![5, 5];
    assert!(store.update_borders(-1, 0, lb));
    let g = LightGrid::compute_with_borders_buf(&b, &store, &reg);
    let out = LightBorders::from_grid(&g);
    assert_eq!(out.bcn_xn, vec![68, 0]);
    assert_eq!(out.bcn_xp, vec![4, 0]);
    assert_eq!(g.sample_face_local(0, 0, 0, 2), 36);

    let mut straight = LightBorders::new(3, 2, 1);
    straight.bcn_xp = vec![100, 0];
    straight.bcn_dir_xp = vec![1, 1];
    assert!(store.update_borders(-1, 0, straight));
    let g = LightGrid::compute_with_borders_buf(&b, &store, &reg);
    let out = LightBorders::from_grid(&g);
    assert_eq!(out.bcn_xn, vec![99, 0]);
    assert_eq!(out.bcn_xp, vec![97, 0]);
}

#[test]
fn adding_then_removing_an_emitter_restores_the_list() {
    let mut store = LightingStore::new(4, 4, 4);
    store.add_beacon_world(6, 2, -2, 50);
    store.add_emitter_world(4, 0, -4, 9);
    let before = store.emitters_for_chunk(1, -1);
    store.add_emitter_world(5, 1, -1, 10);
    assert_eq!(store.emitters_for_chunk(1, -1).len(), 3);
    store.remove_emitter_world(5, 1, -1);
    assert_eq!(store.emitters_for_chunk(1, -1), before);
    assert_eq!(before, vec![(2, 2, 2, 50, true), (0, 0, 0, 9, false)]);
}
