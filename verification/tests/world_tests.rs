use geist::chunkbuf::generate_chunk_buffer;
use geist::config::{BlockDef, BlocksConfig};
use geist::registry::{BlockRegistry, MaterialCatalog};
use geist::types::Block;
use geist::world::{TerrainSample, World, WorldGenMode};

fn def(name: &str) -> BlockDef {
    BlockDef {
        name: name.to_string(),
        id: None,
        solid: None,
        blocks_skylight: None,
        propagates_light: None,
        emission: None,
        light_profile: None,
        light: None,
        shape: None,
        materials: None,
        state_schema: None,
        seam: None,
    }
}

const NAMES: [&str; 17] = [
    "air", "stone", "dirt", "grass", "sand", "snow", "glowstone", "oak_log", "birch_log", "spruce_log",
    "jungle_log", "acacia_log", "dark_oak_log", "oak_leaves", "birch_leaves", "spruce_leaves", "jungle_leaves",
];

fn registry() -> BlockRegistry {
    let mut blocks: Vec<BlockDef> = NAMES.iter().map(|n| def(n)).collect();
    blocks.push(def("acacia_leaves"));
    BlockRegistry::from_configs(MaterialCatalog { materials: vec![] }, BlocksConfig { blocks, lighting: None, unknown_block: None })
}

fn name_of(reg: &BlockRegistry, b: Block) -> String {
    reg.get(b.id).unwrap().name.clone()
}

fn flat_sample(h: i32) -> TerrainSample {
    TerrainSample { heights: vec![h; 25], snow_from: 40, sand_to: 12, carved: false, near_solid: false }
}

#[test]
fn world_sizes_and_mode() {
    let w = World::new(4, 3, 16, 64, 8, 7, WorldGenMode::Flat { thickness: 2 });
    assert_eq!(w.world_size_x(), 64);
    assert_eq!(w.world_size_y(), 64);
    assert_eq!(w.world_size_z(), 24);
    assert!(w.is_flat());
    assert!(!World::new(1, 1, 1, 1, 1, 0, WorldGenMode::Normal).is_flat());
}

#[test]
fn flat_world_is_a_stone_slab() {
    let reg = registry();
    let w = World::new(1, 1, 16, 64, 16, 7, WorldGenMode::Flat { thickness: 2 });
    assert_eq!(w.block_at_runtime(&reg, 3, 0, 3).map(|b| name_of(&reg, b)), Some("stone".to_string()));
    assert_eq!(w.block_at_runtime(&reg, 3, 1, 3).map(|b| name_of(&reg, b)), Some("stone".to_string()));
    assert_eq!(w.block_at_runtime(&reg, 3, 2, 3).map(|b| name_of(&reg, b)), Some("air".to_string()));
    assert_eq!(w.block_at_runtime(&reg, 3, -1, 3).map(|b| name_of(&reg, b)), Some("air".to_string()));
    assert_eq!(w.block_at_runtime(&reg, 3, 64, 3).map(|b| name_of(&reg, b)), Some("air".to_string()));
    let empty = BlockRegistry::new();
    assert_eq!(w.block_at_runtime(&empty, 3, 0, 3), Some(Block { id: 0, state: 0 }));
}

#[test]
fn normal_world_needs_samples_inside_its_height() {
    let reg = registry();
    let w = World::new(1, 1, 16, 64, 16, 7, WorldGenMode::Normal);
    assert_eq!(w.block_at_runtime(&reg, 3, 10, 3), None);
    assert_eq!(w.block_at_runtime(&reg, 3, -5, 3).map(|b| name_of(&reg, b)), Some("air".to_string()));
}

#[test]
fn terrain_layers_from_height() {
    let reg = registry();
    // seed 7 grows no tree on these columns (checked below via the trunk rule)
    let w = World::new(1, 1, 16, 64, 16, 7, WorldGenMode::Normal);
    let s = flat_sample(20);
    let at = |x: i32, y: i32, z: i32, s: &TerrainSample| name_of(&reg, w.block_at_runtime_with(&reg, x, y, z, s));
    // find a column with no tree nearby
    let mut col = None;
    'search: for x in 0..200 {
        for z in 0..200 {
            let above = at(x, 20, z, &s);
            let top = at(x, 19, z, &s);
            if above == "air" && top == "grass" && at(x, 21, z, &s) == "air" && at(x, 22, z, &s) == "air" {
                col = Some((x, z));
                break 'search;
            }
        }
    }
    let (x, z) = col.expect("a bare column");
    assert_eq!(at(x, 19, z, &s), "grass");
    assert_eq!(at(x, 18, z, &s), "dirt");
    assert_eq!(at(x, 17, z, &s), "dirt");
    assert_eq!(at(x, 16, z, &s), "stone");
    assert_eq!(at(x, 0, z, &s), "stone");
    let high = flat_sample(45);
    assert_eq!(at(x, 44, z, &high), "snow");
    let low = flat_sample(10);
    assert_eq!(at(x, 9, z, &low), "sand");
    assert_eq!(at(x, 8, z, &low), "dirt");
}

#[test]
fn caves_carve_rock_but_not_topsoil() {
    let reg = registry();
    let w = World::new(1, 1, 16, 64, 16, 7, WorldGenMode::Normal);
    let mut s = flat_sample(30);
    s.carved = true;
    let at = |x: i32, y: i32, z: i32, s: &TerrainSample| name_of(&reg, w.block_at_runtime_with(&reg, x, y, z, s));
    // at least 4 below the top and above y = 2
    assert_eq!(at(1, 10, 1, &s), "air");
    assert_eq!(at(1, 26, 1, &s), "air");
    assert_eq!(at(1, 27, 1, &s), "dirt");
    assert_eq!(at(1, 2, 1, &s), "stone");
    // near rock, some spots glow
    s.near_solid = true;
    let mut glowing = 0;
    for x in 0..100 {
        for z in 0..100 {
            let n = at(x, 10, z, &s);
            assert!(n == "air" || n == "glowstone");
            if n == "glowstone" {
                glowing += 1;
            }
        }
    }
    assert!(glowing > 0 && glowing < 100);
}

#[test]
fn trees_have_trunks_and_canopies() {
    let reg = registry();
    let w = World::new(1, 1, 16, 64, 16, 7, WorldGenMode::Normal);
    let s = flat_sample(20);
    let at = |x: i32, y: i32, z: i32| name_of(&reg, w.block_at_runtime_with(&reg, x, y, z, &s));
    let mut found = None;
    'search: for x in 2..300 {
        for z in 2..300 {
            if at(x, 20, z).ends_with("_log") {
                found = Some((x, z));
                break 'search;
            }
        }
    }
    let (x, z) = found.expect("some tree grows on flat grass");
    let log = at(x, 20, z);
    // trunk height 4 to 6 above the grass at y = 19
    let mut top = 20;
    while at(x, top + 1, z) == log {
        top += 1;
    }
    assert!((23..=25).contains(&top));
    // the canopy spreads around and over the trunk top, but not onto its column
    assert!(!at(x, top + 1, z).ends_with("_log"));
    assert!(at(x + 1, top, z).ends_with("_leaves"));
    assert!(at(x + 2, top, z + 1).ends_with("_leaves"));
    assert!(at(x + 1, top + 1, z).ends_with("_leaves"));
    assert!(at(x, top + 1, z + 1).ends_with("_leaves"));
    assert!(at(x + 1, top + 2, z).ends_with("_leaves"));
    assert!(at(x + 2, top - 1, z).ends_with("_leaves"));
}

#[test]
fn chunk_generation_fills_every_cell() {
    let reg = registry();
    let w = World::new(1, 1, 4, 8, 4, 3, WorldGenMode::Flat { thickness: 3 });
    let buf = generate_chunk_buffer(&w, 1, -1, &reg, |_x: i32, _y: i32, _z: i32| flat_sample(4));
    assert_eq!((buf.cx, buf.cz, buf.sx, buf.sy, buf.sz), (1, -1, 4, 8, 4));
    assert_eq!(buf.blocks.len(), 128);
    assert_eq!(name_of(&reg, buf.get_local(0, 2, 0)), "stone");
    assert_eq!(name_of(&reg, buf.get_local(3, 3, 3)), "air");
    assert_eq!(buf.get_world(4, 0, -4).map(|b| name_of(&reg, b)), Some("stone".to_string()));
    assert_eq!(buf.get_world(0, 0, 0), None);

    let normal = World::new(1, 1, 4, 8, 4, 3, WorldGenMode::Normal);
    let sampled = generate_chunk_buffer(&normal, 0, 0, &reg, |_x: i32, _y: i32, _z: i32| flat_sample(4));
    for x in 0..4 {
        for z in 0..4 {
            let direct = normal.block_at_runtime_with(&reg, x as i32, 2, z as i32, &flat_sample(4));
            assert_eq!(sampled.get_local(x, 2, z), direct);
        }
    }
}
