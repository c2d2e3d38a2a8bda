use geist::compile::compile_shape;
use geist::config::{BlockDef, BlocksConfig, LightProfile, LightingConfig, MaterialSelector, MaterialsDef, PropertyFrom, ShapeConfig, ShapeDetailed, SourceDirs};
use geist::registry::{BlockRegistry, CompiledLight, Material, MaterialCatalog};
use geist::meshutil::is_full_cube;
use geist::types::{Block, FaceRole, MaterialId, Shape};

fn def(name: &str) -> BlockDef {
    BlockDef {
        name: name.to_string(),
        id: None,
        solid: None,
        blocks_skylight: None,
        propagates_light: None,
        emission: None,
        light_profile: None,
        light: None,
        shape: None,
        materials: None,
        state_schema: None,
        seam: None,
    }
}

fn catalog(names: &[&str]) -> MaterialCatalog {
    MaterialCatalog {
        materials: names
            .iter()
            .map(|n| Material { name: n.to_string(), texture_candidates: vec![format!("{}.png", n)] })
            .collect(),
    }
}

fn config(blocks: Vec<BlockDef>) -> BlocksConfig {
    BlocksConfig { blocks, lighting: None, unknown_block: None }
}

fn strings(v: &[&str]) -> Vec<String> {
    v.iter().map(|s| s.to_string()).collect()
}

fn slab_def() -> BlockDef {
    let mut d = def("stone_slab");
    d.shape = Some(ShapeConfig::Detailed(ShapeDetailed {
        kind: "slab".to_string(),
        axis: None,
        half: None,
        facing: None,
        open: None,
    }));
    d.state_schema = Some(vec![
        ("half".to_string(), strings(&["bottom", "top"])),
        ("facing".to_string(), strings(&["north", "south", "west", "east"])),
        ("waterlogged".to_string(), strings(&["false", "true"])),
    ]);
    d.materials = Some(MaterialsDef {
        all: Some(MaterialSelector::Key("stone".to_string())),
        top: Some(MaterialSelector::By {
            by: "half".to_string(),
            map: vec![("top".to_string(), "slab_top".to_string()), ("bottom".to_string(), "missing".to_string())],
        }),
        bottom: None,
        side: None,
    });
    d
}

#[test]
fn ids_follow_definition_order_and_fill_gaps() {
    let mut glow = def("glowstone");
    glow.id = Some(5);
    glow.emission = Some(200);
    let reg = BlockRegistry::from_configs(catalog(&[]), config(vec![def("air"), def("stone"), glow, def("dirt")]));
    assert_eq!(reg.blocks.len(), 7);
    assert_eq!(reg.id_by_name("air"), Some(0));
    assert_eq!(reg.id_by_name("stone"), Some(1));
    assert_eq!(reg.id_by_name("glowstone"), Some(5));
    // the next free id after the table grew to 6 entries
    assert_eq!(reg.id_by_name("dirt"), Some(6));
    assert_eq!(reg.id_by_name("lava"), None);
    // fillers carry the id of the definition that grew the table
    for i in 2..5 {
        let t = reg.get(i).unwrap();
        assert_eq!(t.id, 5);
        assert_eq!(t.name, "");
        assert!(!t.solid);
        assert!(matches!(t.shape, Shape::Invisible));
        assert_eq!(t.pre_mat_top, vec![MaterialId(0)]);
        assert_eq!(t.pre_occ_mask, vec![0u8]);
    }
    let g = reg.get(5).unwrap();
    assert_eq!(g.light_emission(0), 200);
    assert!(g.is_solid(0));
    assert!(g.blocks_skylight(0));
    assert!(!g.propagates_light(0));
    assert!(reg.get(7).is_none());
}

#[test]
fn later_definition_replaces_earlier_one_at_same_id() {
    let mut a = def("a");
    a.id = Some(1);
    let mut b = def("b");
    b.id = Some(1);
    b.solid = Some(false);
    let reg = BlockRegistry::from_configs(catalog(&[]), config(vec![a, b]));
    assert_eq!(reg.blocks.len(), 2);
    assert_eq!(reg.get(1).unwrap().debug_name(), "b");
    assert!(!reg.get(1).unwrap().is_solid(0));
    // names keep the id they were given
    assert_eq!(reg.id_by_name("a"), Some(1));
    assert_eq!(reg.id_by_name("b"), Some(1));
}

#[test]
fn skylight_blocking_defaults_to_solidity() {
    let mut glass = def("glass");
    glass.solid = Some(true);
    glass.blocks_skylight = Some(false);
    let mut air = def("air");
    air.solid = Some(false);
    let reg = BlockRegistry::from_configs(catalog(&[]), config(vec![air, glass, def("stone")]));
    assert!(!reg.get(0).unwrap().blocks_skylight(0));
    assert!(!reg.get(1).unwrap().blocks_skylight(0));
    assert!(reg.get(2).unwrap().blocks_skylight(0));
}

#[test]
fn unknown_block_fallback() {
    let mut cfg = config(vec![def("air"), def("missing_texture")]);
    cfg.unknown_block = Some("missing_texture".to_string());
    let reg = BlockRegistry::from_configs(catalog(&[]), cfg);
    assert_eq!(reg.unknown_block_id, Some(1));
    assert_eq!(reg.unknown_block_id_or_panic(), 1);

    let mut cfg = config(vec![def("air"), def("unknown")]);
    cfg.unknown_block = Some("nope".to_string());
    let reg = BlockRegistry::from_configs(catalog(&[]), cfg);
    assert_eq!(reg.unknown_block_id, None);
    assert_eq!(reg.unknown_block_id_or_panic(), 1);

    let mut cfg = config(vec![def("stone"), def("air")]);
    cfg.unknown_block = Some("nope".to_string());
    let reg = BlockRegistry::from_configs(catalog(&[]), cfg);
    assert_eq!(reg.unknown_block_id_or_panic(), 1);
}

#[test]
fn lights_resolve_inline_then_profile_then_default() {
    let mut lamp = def("lamp");
    lamp.light_profile = Some("warm".to_string());
    let mut beacon = def("beacon");
    beacon.light = Some(LightProfile::Beam {
        straight_cost: 2,
        turn_cost: 40,
        vertical_cost: 50,
        source_dirs: SourceDirs::Vertical,
        max_range: Some(64),
    });
    let mut orphan = def("orphan");
    orphan.light_profile = Some("none_such".to_string());
    let mut cfg = config(vec![lamp, beacon, orphan, def("rock")]);
    cfg.lighting = Some(LightingConfig {
        profiles: vec![("warm".to_string(), LightProfile::Omni { attenuation: 20, max_range: None })],
    });
    let reg = BlockRegistry::from_configs(catalog(&[]), cfg);
    let lamp = reg.get(0).unwrap();
    assert!(!lamp.light_is_beam());
    assert_eq!(lamp.omni_attenuation(), 20);
    assert_eq!(lamp.beam_params(), (1, 32, 32, SourceDirs::Horizontal));
    let beacon = reg.get(1).unwrap();
    assert!(beacon.light_is_beam());
    assert_eq!(beacon.omni_attenuation(), 32);
    assert_eq!(beacon.beam_params(), (2, 40, 50, SourceDirs::Vertical));
    assert!(matches!(reg.get(2).unwrap().light, CompiledLight::Omni { attenuation: 32, max_range: None }));
    assert!(matches!(reg.get(3).unwrap().light, CompiledLight::Omni { attenuation: 32, max_range: None }));
}

#[test]
fn state_layout_sorts_properties_and_sizes_fields() {
    let reg = BlockRegistry::from_configs(catalog(&["stone", "slab_top"]), config(vec![slab_def()]));
    let t = reg.get(0).unwrap();
    let names: Vec<&str> = t.state_fields.iter().map(|f| f.name.as_str()).collect();
    assert_eq!(names, vec!["facing", "half", "waterlogged"]);
    let layout: Vec<(u32, u32)> = t.state_fields.iter().map(|f| (f.bits, f.offset)).collect();
    assert_eq!(layout, vec![(2, 0), (1, 2), (1, 3)]);
    // tables cover all 2^4 states
    assert_eq!(t.pre_mat_top.len(), 16);
    assert_eq!(t.pre_occ_mask.len(), 16);
}

#[test]
fn pack_and_decode_round_trip() {
    let reg = BlockRegistry::from_configs(catalog(&[]), config(vec![slab_def()]));
    let t = reg.get(0).unwrap();
    let props = vec![
        ("half".to_string(), "top".to_string()),
        ("facing".to_string(), "west".to_string()),
        ("waterlogged".to_string(), "true".to_string()),
    ];
    let s = t.pack_state(&props);
    // facing=west (2) at bit 0, half=top (1) at bit 2, waterlogged=true (1) at bit 3
    assert_eq!(s, 2 | (1 << 2) | (1 << 3));
    assert_eq!(t.state_prop_value(s, "facing"), Some("west"));
    assert_eq!(t.state_prop_value(s, "half"), Some("top"));
    assert_eq!(t.state_prop_value(s, "waterlogged"), Some("true"));
    assert_eq!(t.state_prop_value(s, "color"), None);
    assert!(t.state_prop_is_value(s, "half", "top"));
    assert!(!t.state_prop_is_value(s, "half", "bottom"));
}

#[test]
fn pack_defaults_missing_or_unknown_values_to_first() {
    let reg = BlockRegistry::from_configs(catalog(&[]), config(vec![slab_def()]));
    let t = reg.get(0).unwrap();
    let props = vec![("facing".to_string(), "up".to_string())];
    assert_eq!(t.pack_state(&props), 0);
    assert_eq!(t.state_prop_value(0, "facing"), Some("north"));
    assert_eq!(t.state_prop_value(0, "half"), Some("bottom"));
}

#[test]
fn state_without_schema() {
    let reg = BlockRegistry::from_configs(catalog(&[]), config(vec![def("stone")]));
    let t = reg.get(0).unwrap();
    assert_eq!(t.pack_state(&vec![("half".to_string(), "top".to_string())]), 0);
    assert_eq!(t.state_prop_value(7, "half"), None);
    assert_eq!(t.pre_mat_side.len(), 1);
}

#[test]
fn single_value_property_takes_no_bits() {
    let mut d = def("pillar");
    d.state_schema = Some(vec![("axis".to_string(), strings(&["y"]))]);
    let reg = BlockRegistry::from_configs(catalog(&[]), config(vec![d]));
    let t = reg.get(0).unwrap();
    assert_eq!(t.state_fields[0].bits, 0);
    assert_eq!(t.state_prop_value(5, "axis"), Some("y"));
}

#[test]
fn materials_by_property_and_fallbacks() {
    let cat = catalog(&["unknown", "stone", "slab_top"]);
    let reg = BlockRegistry::from_configs(cat, config(vec![slab_def()]));
    let t = reg.get(0).unwrap();
    let top_state = t.pack_state(&vec![("half".to_string(), "top".to_string())]);
    assert_eq!(top_state, 4);
    assert_eq!(t.materials.material_for(FaceRole::Top, top_state, t), Some(MaterialId(2)));
    // "missing" names no material, so the bottom half has no top material
    assert_eq!(t.materials.material_for(FaceRole::Top, 0, t), None);
    // bottom and side fall back to `all`
    assert_eq!(t.materials.material_for(FaceRole::Bottom, 0, t), Some(MaterialId(1)));
    assert_eq!(t.materials.material_for(FaceRole::Side, top_state, t), Some(MaterialId(1)));
    assert_eq!(t.materials.material_for(FaceRole::All, 0, t), Some(MaterialId(1)));
    // cached lookups use the "unknown" material for missing ones
    assert_eq!(t.material_for_cached(FaceRole::Top, top_state), MaterialId(2));
    assert_eq!(t.material_for_cached(FaceRole::Top, 0), MaterialId(0));
    assert_eq!(t.material_for_cached(FaceRole::Bottom, 3), MaterialId(1));
    assert_eq!(t.material_for_cached(FaceRole::All, 3), MaterialId(1));
    // with named values instead of a state
    let props = vec![("half".to_string(), "top".to_string())];
    assert_eq!(t.materials.material_for_props(FaceRole::Top, &props), Some(MaterialId(2)));
    assert_eq!(t.materials.material_for_props(FaceRole::Top, &vec![]), None);
    assert_eq!(t.materials.material_for_props(FaceRole::Side, &vec![]), Some(MaterialId(1)));
}

#[test]
fn cached_material_agrees_with_direct_lookup_for_every_state() {
    let cat = catalog(&["unknown", "stone", "slab_top"]);
    let reg = BlockRegistry::from_configs(cat, config(vec![slab_def()]));
    let t = reg.get(0).unwrap();
    for s in 0..=u16::MAX {
        for role in [FaceRole::Top, FaceRole::Bottom, FaceRole::Side] {
            let direct = t.materials.material_for(role, s, t).unwrap_or(MaterialId(0));
            assert_eq!(t.material_for_cached(role, s), direct);
        }
    }
}

#[test]
fn slab_occlusion_depends_on_half() {
    let reg = BlockRegistry::from_configs(catalog(&[]), config(vec![slab_def(), def("stone"), {
        let mut a = def("air");
        a.solid = Some(false);
        a
    }]));
    let slab = reg.get(0).unwrap();
    let top = slab.pack_state(&vec![("half".to_string(), "top".to_string())]);
    // top slab: closes -Y and the four sides
    assert_eq!(slab.occlusion_mask_cached(top), 0b11_1110);
    // bottom slab: closes +Y and the four sides
    assert_eq!(slab.occlusion_mask_cached(0), 0b11_1101);
    assert_eq!(reg.get(1).unwrap().occlusion_mask_cached(0), 0b11_1111);
    assert_eq!(reg.get(2).unwrap().occlusion_mask_cached(0), 0);
}

#[test]
fn make_block_by_name_packs_state() {
    let reg = BlockRegistry::from_configs(catalog(&[]), config(vec![def("air"), slab_def()]));
    let props = vec![("facing".to_string(), "east".to_string())];
    let b = reg.make_block_by_name("stone_slab", Some(&props)).unwrap();
    assert_eq!((b.id, b.state), (1, 3));
    let b = reg.make_block_by_name("stone_slab", None).unwrap();
    assert_eq!((b.id, b.state), (1, 0));
    assert!(reg.make_block_by_name("obsidian", None).is_none());
}

#[test]
fn shapes_compile_with_default_properties() {
    assert!(matches!(compile_shape(None), Shape::Cube));
    assert!(matches!(compile_shape(Some(ShapeConfig::Simple("cube".to_string()))), Shape::Cube));
    assert!(matches!(compile_shape(Some(ShapeConfig::Simple("cross".to_string()))), Shape::Invisible));
    let detailed = |kind: &str, half: Option<&str>| {
        ShapeConfig::Detailed(ShapeDetailed {
            kind: kind.to_string(),
            axis: None,
            half: half.map(|h| PropertyFrom { from: h.to_string() }),
            facing: None,
            open: None,
        })
    };
    match compile_shape(Some(detailed("stairs", None))) {
        Shape::Stairs { facing_from, half_from } => {
            assert_eq!(facing_from, "facing");
            assert_eq!(half_from, "half");
        }
        _ => panic!("expected stairs"),
    }
    match compile_shape(Some(detailed("slab", Some("type")))) {
        Shape::Slab { half_from } => assert_eq!(half_from, "type"),
        _ => panic!("expected slab"),
    }
    match compile_shape(Some(detailed("axis_cube", None))) {
        Shape::AxisCube { axis_from } => assert_eq!(axis_from, "axis"),
        _ => panic!("expected axis cube"),
    }
    assert!(matches!(compile_shape(Some(detailed("fence", None))), Shape::Invisible));
}

#[test]
fn material_catalog_finds_first_by_name() {
    let cat = catalog(&["a", "b", "a"]);
    assert_eq!(cat.get_id("a"), Some(MaterialId(0)));
    assert_eq!(cat.get_id("b"), Some(MaterialId(1)));
    assert_eq!(cat.get_id("c"), None);
}

#[test]
fn full_cube_test_uses_shape() {
    let mut pillar = def("log");
    pillar.shape = Some(ShapeConfig::Detailed(ShapeDetailed {
        kind: "axis_cube".to_string(),
        axis: None,
        half: None,
        facing: None,
        open: None,
    }));
    let reg = BlockRegistry::from_configs(catalog(&[]), config(vec![def("stone"), pillar, slab_def()]));
    assert!(is_full_cube(&reg, Block { id: 0, state: 0 }));
    assert!(is_full_cube(&reg, Block { id: 1, state: 0 }));
    assert!(!is_full_cube(&reg, Block { id: 2, state: 0 }));
    assert!(!is_full_cube(&reg, Block { id: 9, state: 0 }));
}

#[test]
fn cached_materials_read_the_state_cut_to_the_table() {
    let reg = BlockRegistry::from_configs(catalog(&["stone", "slab_top"]), config(vec![slab_def()]));
    let t = reg.get(0).unwrap();
    assert_eq!(t.pre_mat_top.len(), 16);
    assert_eq!(t.material_for_cached(FaceRole::Top, 0x04), MaterialId(1));
    assert_eq!(t.material_for_cached(FaceRole::Top, 0x14), MaterialId(1));
    assert_eq!(t.material_for_cached(FaceRole::Top, 0x10), MaterialId(0));
    assert_eq!(t.material_for_cached(FaceRole::All, 0x24), t.material_for_cached(FaceRole::Side, 0x24));
}

#[test]
fn schemas_wider_than_a_word_still_compile() {
    let values: Vec<String> = (0..256).map(|i| format!("v{}", i)).collect();
    let mut d = def("wide");
    d.state_schema = Some(vec![
        ("a".to_string(), values.clone()),
        ("b".to_string(), values.clone()),
        ("c".to_string(), values.clone()),
        ("d".to_string(), values.clone()),
        ("e".to_string(), values.clone()),
    ]);
    let reg = BlockRegistry::from_configs(catalog(&[]), config(vec![d]));
    let t = reg.get(0).unwrap();
    let layout: Vec<(u32, u32)> = t.state_fields.iter().map(|f| (f.bits, f.offset)).collect();
    assert_eq!(layout, vec![(8, 0), (8, 8), (8, 16), (8, 24), (8, 32)]);
    assert_eq!(t.pre_occ_mask.len(), 65536);
    assert_eq!(t.state_prop_value(0x0305, "a"), Some("v5"));
    assert_eq!(t.state_prop_value(0x0305, "b"), Some("v3"));
    assert_eq!(t.state_prop_value(0x0305, "c"), Some("v0"));
    assert_eq!(t.state_prop_value(0x0305, "e"), Some("v0"));
}
