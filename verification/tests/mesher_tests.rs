use geist::chunkbuf::ChunkBuf;
use geist::config::{BlockDef, BlocksConfig};
use geist::lighting::{LightBorders, LightGrid, LightingStore};
use geist::meshutil::Face;
use geist::mesher::{body_face_info, build_chunk_mesh, chunk_face_info, sample_neighbor_half_light, NeighborsLoaded, VISUAL_LIGHT_MIN};
use geist::registry::{BlockRegistry, MaterialCatalog};
use geist::types::{Block, MaterialId};

fn def(name: &str, solid: bool) -> BlockDef {
    BlockDef {
        name: name.to_string(),
        id: None,
        solid: Some(solid),
        blocks_skylight: None,
        propagates_light: None,
        emission: None,
        light_profile: None,
        light: None,
        shape: None,
        materials: None,
        state_schema: None,
        seam: None,
    }
}

fn registry() -> BlockRegistry {
    BlockRegistry::from_configs(
        MaterialCatalog { materials: vec![] },
        BlocksConfig { blocks: vec![def("air", false), def("stone", true)], lighting: None, unknown_block: None },
    )
}

const AIR: Block = Block { id: 0, state: 0 };
const STONE: Block = Block { id: 1, state: 0 };

/// A 2x3x2 chunk with a floor of stone and air above.
fn floor_chunk() -> ChunkBuf {
    let mut blocks = Vec::new();
    for y in 0..3 {
        for _z in 0..2 {
            for _x in 0..2 {
                blocks.push(if y == 0 { STONE } else { AIR });
            }
        }
    }
    ChunkBuf::from_blocks_local(0, 0, 2, 3, 2, blocks)
}

fn setup() -> (BlockRegistry, ChunkBuf, LightGrid) {
    let reg = registry();
    let buf = floor_chunk();
    let store = LightingStore::new(2, 3, 2);
    let light = LightGrid::compute_with_borders_buf(&buf, &store, &reg);
    (reg, buf, light)
}

#[test]
fn open_top_face_shows_with_sky_light() {
    let (reg, buf, light) = setup();
    let r = chunk_face_info(&buf, &light, &reg, NeighborsLoaded::default(), 0, 0, 0, Face::PosY, None);
    assert_eq!(r, Some((MaterialId(0), 255)));
}

#[test]
fn face_against_solid_neighbor_is_hidden() {
    let (reg, buf, light) = setup();
    assert_eq!(chunk_face_info(&buf, &light, &reg, NeighborsLoaded::default(), 0, 0, 0, Face::PosX, None), None);
    assert_eq!(chunk_face_info(&buf, &light, &reg, NeighborsLoaded::default(), 1, 0, 1, Face::NegZ, None), None);
}

#[test]
fn air_has_no_faces() {
    let (reg, buf, light) = setup();
    assert_eq!(chunk_face_info(&buf, &light, &reg, NeighborsLoaded::default(), 0, 1, 0, Face::NegY, None), None);
}

#[test]
fn edge_faces_depend_on_the_neighbor_chunk() {
    let (reg, buf, light) = setup();
    let l = light.sample_face_local(0, 0, 0, 3);
    let unloaded = NeighborsLoaded::default();
    let loaded = NeighborsLoaded { neg_x: true, pos_x: false, neg_z: false, pos_z: false };
    assert_eq!(chunk_face_info(&buf, &light, &reg, unloaded, 0, 0, 0, Face::NegX, Some(STONE)), Some((MaterialId(0), l)));
    assert_eq!(chunk_face_info(&buf, &light, &reg, loaded, 0, 0, 0, Face::NegX, Some(STONE)), None);
    assert_eq!(chunk_face_info(&buf, &light, &reg, loaded, 0, 0, 0, Face::NegX, Some(AIR)), Some((MaterialId(0), l)));
    assert_eq!(chunk_face_info(&buf, &light, &reg, loaded, 0, 0, 0, Face::NegX, None), Some((MaterialId(0), l)));
}

#[test]
fn half_light_takes_the_brighter_cell_and_the_floor() {
    let (_reg, _buf, light) = setup();
    let own = light.sample_face_local(0, 0, 0, 2);
    let above = light.sample_face_local(0, 1, 0, 2);
    let expect = own.max(above).max(VISUAL_LIGHT_MIN);
    assert_eq!(sample_neighbor_half_light(&light, 0, 0, 0, Face::PosX, true, 3), expect);
    assert_eq!(sample_neighbor_half_light(&light, 0, 0, 0, Face::PosX, true, 1), own.max(VISUAL_LIGHT_MIN));
    assert_eq!(sample_neighbor_half_light(&light, 0, 0, 0, Face::PosX, false, 3), own.max(VISUAL_LIGHT_MIN));
    let below = light.sample_face_local(0, 1, 0, 2);
    let at2 = light.sample_face_local(0, 2, 0, 2);
    assert_eq!(sample_neighbor_half_light(&light, 0, 2, 0, Face::PosX, false, 3), at2.max(below).max(VISUAL_LIGHT_MIN));
}

#[test]
fn body_faces_hide_only_against_solid_neighbors_inside_the_buffer() {
    let reg = registry();
    let buf = floor_chunk();
    assert_eq!(body_face_info(&buf, &reg, 100, 0, 0, 0, Face::PosY), Some((MaterialId(0), 140)));
    assert_eq!(body_face_info(&buf, &reg, 100, 0, 0, 0, Face::NegY), Some((MaterialId(0), 40)));
    assert_eq!(body_face_info(&buf, &reg, 100, 0, 0, 0, Face::PosX), None);
    assert_eq!(body_face_info(&buf, &reg, 100, 0, 0, 0, Face::NegX), Some((MaterialId(0), 100)));
    assert_eq!(body_face_info(&buf, &reg, 230, 1, 0, 1, Face::PosY), Some((MaterialId(0), 255)));
    assert_eq!(body_face_info(&buf, &reg, 20, 1, 0, 1, Face::NegY), Some((MaterialId(0), 0)));
    assert_eq!(body_face_info(&buf, &reg, 100, 0, 1, 0, Face::NegY), None);
}

#[test]
fn chunk_mesh_needs_lighting_and_returns_the_borders() {
    let (reg, buf, light) = setup();
    let none = build_chunk_mesh(&buf, None, &reg, NeighborsLoaded::default(), |_x: i32, _y: i32, _z: i32| None::<Block>);
    assert!(none.is_none());
    let store = LightingStore::new(2, 3, 2);
    let (slices, borders) =
        build_chunk_mesh(&buf, Some(&store), &reg, NeighborsLoaded::default(), |_x: i32, _y: i32, _z: i32| None::<Block>)
            .unwrap();
    assert_eq!(slices.len(), 2 * (2 + 3 + 2));
    let expected = LightBorders::from_grid(&light);
    assert_eq!(borders.sk_yp, expected.sk_yp);
    assert_eq!(borders.xn, expected.xn);
    // the floor's top faces merge into one 2x2 rectangle in the first slice (+Y, layer 0)
    assert_eq!(slices[0].layer, 0);
    assert_eq!(slices[0].rects.len(), 1);
    assert_eq!((slices[0].rects[0].w, slices[0].rects[0].h), (2, 2));
    assert_eq!(slices[0].rects[0].light, 255);
    // nothing shows in the air layers above
    assert!(slices[1].rects.is_empty());
    assert!(slices[2].rects.is_empty());
}
