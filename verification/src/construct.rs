//! Building the block registry from the material catalog and the blocks
//! config, and the cached per-state lookups it precomputes.
use vstd::prelude::*;
use vstd::hash_map::StringHashMap;
use vstd::arithmetic::power2::{pow2, lemma_pow2_pos, lemma2_to64, lemma_pow2_strictly_increases};
use vstd::bits::{lemma_usize_low_bits_mask_is_mod, lemma_usize_shl_is_mul, lemma_usize_pow2_no_overflow, low_bits_mask};
use crate::types::{Block, BlockId, BlockState, FaceRole, MaterialId, Shape};
use crate::config::{BlockDef, BlocksConfig, LightProfile};
use crate::registry::{BlockRegistry, BlockType, CompiledLight, CompiledMaterials, MaterialCatalog, assoc_lookup, assoc_position};
use crate::layout::{compute_state_layout, layout_of, layout_ok, index_of_fields, fields_in_word, keys_unique};
use crate::state::{end_of, field_index, lemma_end_of_is_offset, lemma_end_of_mono, lemma_digit_below};
use crate::compile::{compile_shape, compile_materials, no_materials, shape_view, spec_compile_shape, materials_wf, selector_compiled, selector_wf};
use crate::config::{MaterialSelector};

verus! {

/// Sum of the widths of the first `n` fields.
pub open spec fn bits_total(fields: Seq<crate::registry::StateField>, n: int) -> nat
    decreases n,
{
    if n <= 0 {
        0
    } else {
        bits_total(fields, n - 1) + fields[n - 1].bits as nat
    }
}

/// Number of precomputed states: every state of the layout, capped at 16 bits.
pub open spec fn table_len(fields: Seq<crate::registry::StateField>) -> nat {
    let tb = bits_total(fields, fields.len() as int);
    pow2(if tb < 16 { tb } else { 16 })
}

/// A lookup result, or the fallback material.
pub open spec fn or_unknown(m: Option<MaterialId>, unknown: MaterialId) -> MaterialId {
    match m {
        Some(id) => id,
        None => unknown,
    }
}

/// The material named "unknown", else material 0.
pub open spec fn unknown_material(cat: MaterialCatalog) -> MaterialId {
    or_unknown(cat.spec_get_id("unknown"@), MaterialId(0))
}

/// The light a definition resolves to: its inline light, else its named
/// profile, else an omni light with attenuation 32.
pub open spec fn spec_light(def: BlockDef, profiles: Seq<(String, LightProfile)>) -> CompiledLight {
    let p = match def.light {
        Some(l) => Some(l),
        None => match def.light_profile {
            Some(n) => assoc_lookup(profiles, n@),
            None => None,
        },
    };
    match p {
        Some(LightProfile::Omni { attenuation, max_range }) => CompiledLight::Omni { attenuation, max_range },
        Some(LightProfile::Beam { straight_cost, turn_cost, vertical_cost, source_dirs, max_range }) =>
            CompiledLight::Beam { straight_cost, turn_cost, vertical_cost, source_dirs, max_range },
        None => CompiledLight::Omni { attenuation: 32, max_range: None },
    }
}

/// The occlusion mask of a block in `state` (bit `i` for face `i` of
/// `PosY, NegY, PosX, NegX, PosZ, NegZ`): slabs and stairs close their four
/// sides and the face on their filled half; other shapes close all faces
/// when solid and none otherwise.
pub open spec fn spec_occlusion(ty: BlockType, state: BlockState) -> u8 {
    match ty.shape {
        Shape::Slab { half_from } => if ty.spec_prop_value(state, half_from@) == Some("top"@) { 0x3eu8 } else { 0x3du8 },
        Shape::Stairs { half_from, .. } => if ty.spec_prop_value(state, half_from@) == Some("top"@) { 0x3eu8 } else { 0x3du8 },
        _ => if ty.solid { 0x3fu8 } else { 0u8 },
    }
}

/// The schema a definition declares, empty when it declares none.
pub open spec fn def_schema(def: BlockDef) -> Seq<(String, Vec<String>)> {
    match def.state_schema {
        Some(s) => s@,
        None => Seq::empty(),
    }
}

/// A definition the registry can compile: its maps hold each key once, and
/// each property's value count fits 32 bits.
pub open spec fn def_wf(def: BlockDef) -> bool {
    &&& materials_wf(def.materials)
    &&& keys_unique(def_schema(def))
    &&& forall|k: int| 0 <= k < def_schema(def).len() ==> (#[trigger] def_schema(def)[k]).1@.len() <= u32::MAX
}

impl BlockType {
    /// The precomputed tables cover every state of the layout (up to 16 bits).
    pub open spec fn tables_wf(&self) -> bool {
        let n = table_len(self.state_fields@);
        &&& self.pre_mat_top@.len() == n
        &&& self.pre_mat_bottom@.len() == n
        &&& self.pre_mat_side@.len() == n
        &&& self.pre_occ_mask@.len() == n
    }

    /// The precomputed tables hold, for each covered state, the face
    /// materials (with `unknown` for missing ones) and the occlusion mask.
    pub open spec fn tables_hold(&self, unknown: MaterialId) -> bool {
        &&& self.tables_wf()
        &&& forall|s: int| 0 <= s < self.pre_mat_top@.len() ==> #[trigger] self.pre_mat_top@[s]
            == or_unknown(self.materials.spec_material_for(FaceRole::Top, s as u16, *self), unknown)
        &&& forall|s: int| 0 <= s < self.pre_mat_bottom@.len() ==> #[trigger] self.pre_mat_bottom@[s]
            == or_unknown(self.materials.spec_material_for(FaceRole::Bottom, s as u16, *self), unknown)
        &&& forall|s: int| 0 <= s < self.pre_mat_side@.len() ==> #[trigger] self.pre_mat_side@[s]
            == or_unknown(self.materials.spec_material_for(FaceRole::Side, s as u16, *self), unknown)
        &&& forall|s: int| 0 <= s < self.pre_occ_mask@.len() ==> #[trigger] self.pre_occ_mask@[s]
            == spec_occlusion(*self, s as u16)
    }

    /// The block type compiled from `def` at `id`.
    pub open spec fn compiled_from(&self, def: BlockDef, id: BlockId, cat: MaterialCatalog, profiles: Seq<(String, LightProfile)>) -> bool {
        let solid = match def.solid { Some(b) => b, None => true };
        &&& self.id == id
        &&& self.name@ == def.name@
        &&& self.solid == solid
        &&& self.blocks_skylight == match def.blocks_skylight { Some(b) => b, None => solid }
        &&& self.propagates_light == match def.propagates_light { Some(b) => b, None => false }
        &&& self.emission == match def.emission { Some(e) => e, None => 0u8 }
        &&& self.light == spec_light(def, profiles)
        &&& shape_view(self.shape) == spec_compile_shape(def.shape)
        &&& match def.materials {
            None => self.materials.all is None && self.materials.top is None && self.materials.bottom is None && self.materials.side is None,
            Some(m) => selector_compiled(self.materials.all, m.all, cat) && selector_compiled(self.materials.top, m.top, cat)
                && selector_compiled(self.materials.bottom, m.bottom, cat) && selector_compiled(self.materials.side, m.side, cat),
        }
        &&& self.state_schema@ == def_schema(def)
        &&& layout_of(self.state_fields@, def_schema(def))
        &&& self.layout_wf()
        &&& self.tables_hold(unknown_material(cat))
    }

    /// A filler entry for an id no definition took.
    pub open spec fn is_placeholder(&self, id: BlockId) -> bool {
        &&& self.id == id
        &&& self.name@ == Seq::<char>::empty()
        &&& !self.solid && !self.blocks_skylight && !self.propagates_light
        &&& self.emission == 0
        &&& self.light == CompiledLight::Omni { attenuation: 32, max_range: None }
        &&& self.shape is Invisible
        &&& self.materials.all is None && self.materials.top is None && self.materials.bottom is None && self.materials.side is None
        &&& self.pre_mat_top@ == seq![MaterialId(0)]
        &&& self.pre_mat_bottom@ == seq![MaterialId(0)]
        &&& self.pre_mat_side@ == seq![MaterialId(0)]
        &&& self.pre_occ_mask@ == seq![0u8]
        &&& self.state_schema@.len() == 0
        &&& self.state_fields@.len() == 0
        &&& self.prop_index@ == Map::<Seq<char>, usize>::empty()
    }
}

/// The id a definition takes when the table holds `len` entries: its own,
/// else the next free position (as a 16-bit id).
pub open spec fn assigned_id(def: BlockDef, len: nat) -> BlockId {
    match def.id {
        Some(id) => id,
        None => (len % 65536) as u16,
    }
}

/// Table length after the first `n` definitions.
pub open spec fn len_after(defs: Seq<BlockDef>, n: int) -> nat
    decreases n,
{
    if n <= 0 {
        0
    } else {
        let l = len_after(defs, n - 1);
        let id = assigned_id(defs[n - 1], l);
        if l <= id { (id + 1) as nat } else { l }
    }
}

/// The id definition `k` takes.
pub open spec fn id_at(defs: Seq<BlockDef>, k: int) -> BlockId {
    assigned_id(defs[k], len_after(defs, k))
}

/// Block names after the first `n` definitions: a later one takes over a name.
pub open spec fn names_after(defs: Seq<BlockDef>, n: int) -> Map<Seq<char>, BlockId>
    decreases n,
{
    if n <= 0 {
        Map::empty()
    } else {
        names_after(defs, n - 1).insert(defs[n - 1].name@, id_at(defs, n - 1))
    }
}

/// The last of the first `n` definitions that took `id`.
pub open spec fn last_writer(defs: Seq<BlockDef>, n: int, id: int) -> Option<int>
    decreases n,
{
    if n <= 0 {
        None
    } else if id_at(defs, n - 1) == id {
        Some(n - 1)
    } else {
        last_writer(defs, n - 1, id)
    }
}

/// The definition whose id first grew the table past position `slot`.
pub open spec fn grower(defs: Seq<BlockDef>, n: int, slot: int) -> int
    decreases n,
{
    if n <= 0 {
        0
    } else if len_after(defs, n - 1) <= slot {
        n - 1
    } else {
        grower(defs, n - 1, slot)
    }
}

/// Entry `slot` after the first `n` definitions: the last definition that
/// took it, else a filler with the id of the definition that grew the table.
pub open spec fn slot_after(ty: BlockType, defs: Seq<BlockDef>, n: int, slot: int, cat: MaterialCatalog, profiles: Seq<(String, LightProfile)>) -> bool {
    match last_writer(defs, n, slot) {
        Some(k) => ty.compiled_from(defs[k], id_at(defs, k), cat, profiles),
        None => ty.is_placeholder(id_at(defs, grower(defs, n, slot))),
    }
}

/// The lighting profiles of a config.
pub open spec fn config_profiles(cfg: BlocksConfig) -> Seq<(String, LightProfile)> {
    match cfg.lighting {
        Some(l) => l.profiles@,
        None => Seq::empty(),
    }
}

impl BlockRegistry {
    /// Every entry's state layout and tables are in order.
    pub open spec fn blocks_wf(&self) -> bool {
        forall|i: int| 0 <= i < self.blocks@.len() ==> (#[trigger] self.blocks@[i]).layout_wf() && self.blocks@[i].tables_wf()
    }

    /// The registry built from `materials` and `cfg`.
    pub open spec fn built_from(&self, materials: MaterialCatalog, cfg: BlocksConfig) -> bool {
        let defs = cfg.blocks@;
        let n = defs.len() as int;
        let names = names_after(defs, n);
        &&& self.materials == materials
        &&& self.blocks@.len() == len_after(defs, n)
        &&& forall|i: int| 0 <= i < self.blocks@.len() ==> slot_after(#[trigger] self.blocks@[i], defs, n, i, materials, config_profiles(cfg))
        &&& self.by_name@ == names
        &&& self.unknown_block_id == match cfg.unknown_block {
            Some(u) => if names.contains_key(u@) { Some(names[u@]) } else { None },
            None => None,
        }
        &&& self.blocks_wf()
    }
}

fn compile_light(def: &BlockDef, profiles: &Vec<(String, LightProfile)>) -> (r: CompiledLight)
    ensures
        r == spec_light(*def, profiles@),
{
    let p: Option<LightProfile> = match def.light {
        Some(l) => Some(l),
        None => match &def.light_profile {
            Some(n) => match assoc_position(profiles, n.as_str()) {
                Some(i) => Some(profiles[i].1),
                None => None,
            },
            None => None,
        },
    };
    match p {
        Some(LightProfile::Omni { attenuation, max_range }) => CompiledLight::Omni { attenuation, max_range },
        Some(LightProfile::Beam { straight_cost, turn_cost, vertical_cost, source_dirs, max_range }) =>
            CompiledLight::Beam { straight_cost, turn_cost, vertical_cost, source_dirs, max_range },
        None => CompiledLight::Omni { attenuation: 32, max_range: None },
    }
}

/// In a consecutive layout within a word, the widths of the first `n`
/// fields add up to where they end.
proof fn lemma_bits_total_is_end(fields: Seq<crate::registry::StateField>, n: int)
    requires
        layout_ok(fields),
        fields_in_word(fields),
        0 <= n <= fields.len(),
    ensures
        bits_total(fields, n) == end_of(fields, n),
    decreases n,
{
    if n > 0 {
        lemma_bits_total_is_end(fields, n - 1);
        lemma_end_of_is_offset(fields, n - 1);
    }
}

/// In a consecutive layout whose widths add up to at most 32 bits, every
/// field ends where the widths before and including it add up to.
proof fn lemma_small_layout_ends(fields: Seq<crate::registry::StateField>, n: int)
    requires
        layout_ok(fields),
        0 <= n <= fields.len(),
        bits_total(fields, n) <= 32,
    ensures
        forall|i: int| 0 <= i < n ==> #[trigger] fields[i].offset + fields[i].bits == bits_total(fields, i + 1)
            && bits_total(fields, i + 1) <= bits_total(fields, n),
    decreases n,
{
    if n > 0 {
        lemma_small_layout_ends(fields, n - 1);
        if n - 1 > 0 {
            assert(fields[n - 2].offset + fields[n - 2].bits == bits_total(fields, n - 1));
            assert(fields[(n - 2) + 1].offset == crate::layout::sat_add(fields[n - 2].offset as int, fields[n - 2].bits as int));
        }
    }
}

/// A consecutive layout whose widths add up to at most 32 bits lies within a word.
proof fn lemma_small_layout_in_word(fields: Seq<crate::registry::StateField>)
    requires
        layout_ok(fields),
        bits_total(fields, fields.len() as int) <= 32,
    ensures
        fields_in_word(fields),
{
    lemma_small_layout_ends(fields, fields.len() as int);
    assert forall|i: int| 0 <= i < fields.len() implies #[trigger] fields[i].offset + fields[i].bits <= 32 by {
        assert(fields[i].offset + fields[i].bits == bits_total(fields, i + 1));
    }
}

/// How many states the tables cover, and the width that count is 2 to the power of.
fn states_len(ty: &BlockType) -> (r: usize)
    requires
        ty.layout_wf(),
    ensures
        r == table_len(ty.state_fields@),
        1 <= r <= 65536,
{
    let ghost fields = ty.state_fields@;
    let mut tb: u32 = 0;
    let mut i: usize = 0;
    while i < ty.state_fields.len()
        invariant
            fields == ty.state_fields@,
            ty.layout_wf(),
            i <= fields.len(),
            tb as nat == (if bits_total(fields, i as int) < 16 { bits_total(fields, i as int) } else { 16 }),
        decreases fields.len() - i,
    {
        // widths are summed only up to 16, the tables' widest
        let b = ty.state_fields[i].bits;
        if b >= 16 - tb {
            tb = 16;
        } else {
            tb = tb + b;
        }
        i = i + 1;
    }
    let k: u32 = tb;
    proof {
        lemma_usize_pow2_no_overflow(k as nat);
        lemma_usize_shl_is_mul(1, k as usize);
        lemma_pow2_pos(k as nat);
        lemma2_to64();
        if k < 16 {
            lemma_pow2_strictly_increases(k as nat, 16);
        }
    }
    1usize << (k as usize)
}

fn fill_role(ty: &BlockType, role: FaceRole, n: usize, unknown: MaterialId) -> (v: Vec<MaterialId>)
    requires
        ty.index_wf(),
        n <= 65536,
    ensures
        v@.len() == n,
        forall|s: int| 0 <= s < n ==> #[trigger] v@[s] == or_unknown(ty.materials.spec_material_for(role, s as u16, *ty), unknown),
{
    let mut v: Vec<MaterialId> = Vec::new();
    let mut s: usize = 0;
    while s < n
        invariant
            ty.index_wf(),
                n <= 65536,
            s <= n,
            v@.len() == s,
            forall|t: int| 0 <= t < s ==> #[trigger] v@[t] == or_unknown(ty.materials.spec_material_for(role, t as u16, *ty), unknown),
        decreases n - s,
    {
        let id = match ty.materials.material_for(role, s as u16, ty) {
            Some(id) => id,
            None => unknown,
        };
        v.push(id);
        s = s + 1;
    }
    v
}

fn fill_occlusion(ty: &BlockType, n: usize) -> (v: Vec<u8>)
    requires
        ty.layout_wf(),
        n <= 65536,
    ensures
        v@.len() == n,
        forall|s: int| 0 <= s < n ==> #[trigger] v@[s] == spec_occlusion(*ty, s as u16),
{
    let mut v: Vec<u8> = Vec::new();
    let mut s: usize = 0;
    while s < n
        invariant
            ty.layout_wf(),
            n <= 65536,
            s <= n,
            v@.len() == s,
            forall|t: int| 0 <= t < s ==> #[trigger] v@[t] == spec_occlusion(*ty, t as u16),
        decreases n - s,
    {
        let state = s as u16;
        let m: u8 = match &ty.shape {
            Shape::Slab { half_from } => {
                if ty.state_prop_is_value(state, half_from.as_str(), "top") { 0x3e } else { 0x3d }
            },
            Shape::Stairs { half_from, .. } => {
                if ty.state_prop_is_value(state, half_from.as_str(), "top") { 0x3e } else { 0x3d }
            },
            _ => {
                if ty.is_solid(state) { 0x3f } else { 0 }
            },
        };
        v.push(m);
        s = s + 1;
    }
    v
}

fn build_block_type(def: BlockDef, id: BlockId, cat: &MaterialCatalog, profiles: &Vec<(String, LightProfile)>, unknown: MaterialId) -> (ty: BlockType)
    requires
        def_wf(def),
        unknown == unknown_material(*cat),
    ensures
        ty.compiled_from(def, id, *cat, profiles@),
{
    let light = compile_light(&def, profiles);
    let solid = match def.solid {
        Some(b) => b,
        None => true,
    };
    let blocks_skylight = match def.blocks_skylight {
        Some(b) => b,
        None => solid,
    };
    let propagates_light = match def.propagates_light {
        Some(b) => b,
        None => false,
    };
    let emission = match def.emission {
        Some(e) => e,
        None => 0,
    };
    let ghost d = def;
    let BlockDef { name, shape, materials, state_schema, .. } = def;
    let shape = compile_shape(shape);
    let mats = compile_materials(cat, materials);
    let schema: Vec<(String, Vec<String>)> = match state_schema {
        Some(s) => s,
        None => Vec::new(),
    };
    assert(schema@ == def_schema(d));
    let (state_fields, prop_index) = compute_state_layout(&schema);
    let mut ty = BlockType {
        id,
        name,
        solid,
        blocks_skylight,
        propagates_light,
        emission,
        light,
        shape,
        materials: mats,
        pre_mat_top: Vec::new(),
        pre_mat_bottom: Vec::new(),
        pre_mat_side: Vec::new(),
        pre_occ_mask: Vec::new(),
        state_schema: schema,
        state_fields,
        prop_index,
    };
    let n = states_len(&ty);
    let top = fill_role(&ty, FaceRole::Top, n, unknown);
    let bottom = fill_role(&ty, FaceRole::Bottom, n, unknown);
    let side = fill_role(&ty, FaceRole::Side, n, unknown);
    let occ = fill_occlusion(&ty, n);
    let ghost t0 = ty;
    ty.pre_mat_top = top;
    ty.pre_mat_bottom = bottom;
    ty.pre_mat_side = side;
    ty.pre_occ_mask = occ;
    proof {
        assert forall|s: int| 0 <= s < n implies #[trigger] ty.pre_mat_top@[s]
            == or_unknown(ty.materials.spec_material_for(FaceRole::Top, s as u16, ty), unknown) by {
            assert(ty.materials.spec_material_for(FaceRole::Top, s as u16, ty) == t0.materials.spec_material_for(FaceRole::Top, s as u16, t0));
        }
        assert forall|s: int| 0 <= s < n implies #[trigger] ty.pre_mat_bottom@[s]
            == or_unknown(ty.materials.spec_material_for(FaceRole::Bottom, s as u16, ty), unknown) by {
            assert(ty.materials.spec_material_for(FaceRole::Bottom, s as u16, ty) == t0.materials.spec_material_for(FaceRole::Bottom, s as u16, t0));
        }
        assert forall|s: int| 0 <= s < n implies #[trigger] ty.pre_mat_side@[s]
            == or_unknown(ty.materials.spec_material_for(FaceRole::Side, s as u16, ty), unknown) by {
            assert(ty.materials.spec_material_for(FaceRole::Side, s as u16, ty) == t0.materials.spec_material_for(FaceRole::Side, s as u16, t0));
        }
        assert forall|s: int| 0 <= s < n implies #[trigger] ty.pre_occ_mask@[s] == spec_occlusion(ty, s as u16) by {
            assert(spec_occlusion(ty, s as u16) == spec_occlusion(t0, s as u16));
        }
    }
    ty
}

/// A filler entry for `id`.
fn placeholder(id: BlockId) -> (ty: BlockType)
    ensures
        ty.is_placeholder(id),
        ty.layout_wf(),
        ty.tables_wf(),
{
    let mut top: Vec<MaterialId> = Vec::new();
    top.push(MaterialId(0));
    let mut bottom: Vec<MaterialId> = Vec::new();
    bottom.push(MaterialId(0));
    let mut side: Vec<MaterialId> = Vec::new();
    side.push(MaterialId(0));
    let mut occ: Vec<u8> = Vec::new();
    occ.push(0);
    let ty = BlockType {
        id,
        name: String::new(),
        solid: false,
        blocks_skylight: false,
        propagates_light: false,
        emission: 0,
        light: CompiledLight::Omni { attenuation: 32, max_range: None },
        shape: Shape::Invisible,
        materials: no_materials(),
        pre_mat_top: top,
        pre_mat_bottom: bottom,
        pre_mat_side: side,
        pre_occ_mask: occ,
        state_schema: Vec::new(),
        state_fields: Vec::new(),
        prop_index: StringHashMap::new(),
    };
    proof {
        lemma2_to64();
        assert(ty.pre_mat_top@ =~= seq![MaterialId(0)]);
        assert(ty.pre_mat_bottom@ =~= seq![MaterialId(0)]);
        assert(ty.pre_mat_side@ =~= seq![MaterialId(0)]);
        assert(ty.pre_occ_mask@ =~= seq![0u8]);
    }
    ty
}

impl BlockRegistry {
    /// Builds the registry: each definition in order takes its own id (or
    /// the next free one), the table grows with fillers to reach it, a later
    /// definition at the same id replaces an earlier one, and names map to
    /// the id of the last definition that used them. The fallback block is
    /// the configured `unknown_block`, if some definition has that name.
    pub fn from_configs(materials: MaterialCatalog, cfg: BlocksConfig) -> (reg: BlockRegistry)
        requires
            forall|k: int| 0 <= k < cfg.blocks@.len() ==> def_wf(#[trigger] cfg.blocks@[k]),
        ensures
            reg.built_from(materials, cfg),
    {
        let ghost c = cfg;
        let ghost defs = cfg.blocks@;
        let ghost cat = materials;
        let BlocksConfig { blocks, lighting, unknown_block } = cfg;
        assert(unknown_block == c.unknown_block);
        let profiles: Vec<(String, LightProfile)> = match lighting {
            Some(l) => l.profiles,
            None => Vec::new(),
        };
        assert(profiles@ == config_profiles(c));
        let mut reg = BlockRegistry {
            materials,
            blocks: Vec::new(),
            by_name: StringHashMap::new(),
            unknown_block_id: None,
        };
        let unknown = match reg.materials.get_id("unknown") {
            Some(m) => m,
            None => MaterialId(0),
        };
        let mut rest = blocks;
        let total = rest.len();
        let mut i: usize = 0;
        assert(rest@.subrange(0, defs.len() as int) =~= defs);
        while rest.len() > 0
            invariant
                defs == c.blocks@,
                defs.len() == total,
                forall|k: int| 0 <= k < defs.len() ==> def_wf(#[trigger] defs[k]),
                reg.materials == cat,
                reg.unknown_block_id is None,
                unknown == unknown_material(cat),
                profiles@ == config_profiles(c),
                i <= defs.len(),
                rest@ == defs.subrange(i as int, defs.len() as int),
                reg.blocks@.len() == len_after(defs, i as int),
                len_after(defs, i as int) <= 65536,
                forall|j: int| 0 <= j < reg.blocks@.len() ==> slot_after(#[trigger] reg.blocks@[j], defs, i as int, j, cat, profiles@),
                forall|j: int| 0 <= j < reg.blocks@.len() ==> (#[trigger] reg.blocks@[j]).layout_wf() && reg.blocks@[j].tables_wf(),
                reg.by_name@ == names_after(defs, i as int),
            decreases rest@.len(),
        {
            let def = rest.remove(0);
            assert(def == defs[i as int]);
            let len = reg.blocks.len();
            let id: u16 = match def.id {
                Some(id) => id,
                None => (len % 65536) as u16,
            };
            assert(id == id_at(defs, i as int));
            let name = def.name.clone();
            let ty = build_block_type(def, id, &reg.materials, &profiles, unknown);
            let ghost b0 = reg.blocks@;
            while reg.blocks.len() <= id as usize
                invariant
                    reg.materials == cat,
                    reg.unknown_block_id is None,
                    reg.by_name@ == names_after(defs, i as int),
                    b0.len() <= reg.blocks@.len(),
                    reg.blocks@.len() <= b0.len() || reg.blocks@.len() <= id as int + 1,
                    forall|j: int| 0 <= j < b0.len() ==> #[trigger] reg.blocks@[j] == b0[j],
                    forall|j: int| b0.len() <= j < reg.blocks@.len() ==> (#[trigger] reg.blocks@[j]).is_placeholder(id)
                        && reg.blocks@[j].layout_wf() && reg.blocks@[j].tables_wf(),
                decreases id as int + 1 - reg.blocks@.len(),
            {
                reg.blocks.push(placeholder(id));
            }
            let ghost b1 = reg.blocks@;
            reg.blocks.set(id as usize, ty);
            reg.by_name.insert(name, id);
            proof {
                let n1 = i as int + 1;
                assert(reg.blocks@.len() == len_after(defs, n1));
                assert forall|j: int| 0 <= j < reg.blocks@.len() implies slot_after(#[trigger] reg.blocks@[j], defs, n1, j, cat, profiles@) by {
                    if j == id as int {
                        assert(last_writer(defs, n1, j) == Some(i as int));
                    } else {
                        assert(last_writer(defs, n1, j) == last_writer(defs, i as int, j));
                        if j < b0.len() {
                            assert(reg.blocks@[j] == b0[j]);
                            assert(grower(defs, n1, j) == grower(defs, i as int, j));
                        } else {
                            assert(len_after(defs, i as int) <= j);
                            assert(grower(defs, n1, j) == i as int);
                            assert(last_writer(defs, i as int, j) is None) by {
                                lemma_last_writer_below(defs, i as int, j);
                            }
                        }
                    }
                }
                assert forall|j: int| 0 <= j < reg.blocks@.len() implies (#[trigger] reg.blocks@[j]).layout_wf() && reg.blocks@[j].tables_wf() by {
                    if j != id as int {
                        assert(reg.blocks@[j] == b1[j]);
                    }
                }
            }
            i = i + 1;
        }
        assert(defs.subrange(i as int, defs.len() as int).len() == 0);
        assert(i == defs.len());
        if let Some(u) = unknown_block {
            reg.unknown_block_id = reg.id_by_name(u.as_str());
        }
        reg
    }
}

/// Ids the first `n` definitions took lie below the table length.
proof fn lemma_last_writer_below(defs: Seq<BlockDef>, n: int, slot: int)
    requires
        0 <= n <= defs.len(),
        len_after(defs, n) <= slot,
    ensures
        last_writer(defs, n, slot) is None,
    decreases n,
{
    if n > 0 {
        lemma_len_after_mono(defs, n - 1);
        lemma_last_writer_below(defs, n - 1, slot);
    }
}

proof fn lemma_len_after_mono(defs: Seq<BlockDef>, n: int)
    requires
        0 <= n < defs.len(),
    ensures
        len_after(defs, n) <= len_after(defs, n + 1),
        id_at(defs, n) < len_after(defs, n + 1),
{
}

/// Width of the table index: the layout's bits, at most 16.
pub open spec fn table_bits(fields: Seq<crate::registry::StateField>) -> nat {
    let tb = bits_total(fields, fields.len() as int);
    if tb < 16 { tb } else { 16 }
}

impl BlockType {
    /// The cached material for a face role: the top, bottom or side table
    /// (the side table for `All`) at the state cut to the table's width.
    pub open spec fn spec_material_cached(&self, role: FaceRole, state: BlockState) -> MaterialId {
        let i = (state as nat % table_len(self.state_fields@)) as int;
        match role {
            FaceRole::Top => self.pre_mat_top@[i],
            FaceRole::Bottom => self.pre_mat_bottom@[i],
            _ => self.pre_mat_side@[i],
        }
    }

    /// The cached occlusion mask at the state cut to the table's width.
    pub open spec fn spec_occlusion_cached(&self, state: BlockState) -> u8 {
        self.pre_occ_mask@[(state as nat % table_len(self.state_fields@)) as int]
    }

    fn table_index(&self, state: BlockState, len: usize) -> (r: usize)
        requires
            self.tables_wf(),
            len == table_len(self.state_fields@),
        ensures
            r == state as nat % table_len(self.state_fields@),
            r < len,
    {
        let ghost k = table_bits(self.state_fields@);
        proof {
            lemma_pow2_pos(k);
            lemma_usize_pow2_no_overflow(k);
            lemma_usize_low_bits_mask_is_mod(state as usize, k);
            assert(len - 1 == low_bits_mask(k));
        }
        (state as usize) & (len - 1)
    }

    /// Material for a face role from the precomputed tables.
    pub fn material_for_cached(&self, role: FaceRole, state: BlockState) -> (r: MaterialId)
        requires
            self.tables_wf(),
        ensures
            r == self.spec_material_cached(role, state),
    {
        match role {
            FaceRole::Top => {
                let len = self.pre_mat_top.len();
                self.pre_mat_top[self.table_index(state, len)]
            },
            FaceRole::Bottom => {
                let len = self.pre_mat_bottom.len();
                self.pre_mat_bottom[self.table_index(state, len)]
            },
            FaceRole::Side | FaceRole::All => {
                let len = self.pre_mat_side.len();
                self.pre_mat_side[self.table_index(state, len)]
            },
        }
    }

    /// Occlusion mask from the precomputed table.
    pub fn occlusion_mask_cached(&self, state: BlockState) -> (r: u8)
        requires
            self.tables_wf(),
        ensures
            r == self.spec_occlusion_cached(state),
    {
        let len = self.pre_occ_mask.len();
        self.pre_occ_mask[self.table_index(state, len)]
    }
}

/// Cutting a state to the table's width keeps every property's value.
pub proof fn lemma_prop_value_low_bits(ty: BlockType, state: BlockState, prop: Seq<char>)
    requires
        ty.layout_wf(),
    ensures
        ty.spec_prop_value((state as nat % table_len(ty.state_fields@)) as u16, prop) == ty.spec_prop_value(state, prop),
{
    let fields = ty.state_fields@;
    let n = fields.len() as int;
    let k = table_bits(fields);
    lemma_pow2_pos(k);
    lemma2_to64();
    let cut = state as nat % pow2(k);
    if k < 16 {
        lemma_pow2_strictly_increases(k, 16);
    }
    assert(cut <= state) by {
        vstd::arithmetic::div_mod::lemma_mod_is_mod_recursive(state as int, pow2(k) as int);
        vstd::arithmetic::div_mod::lemma_mod_pos_bound(state as int, pow2(k) as int);
        if state < pow2(k) {
            vstd::arithmetic::div_mod::lemma_small_mod(state as nat, pow2(k));
        } else {
            assert(cut < pow2(k));
        }
    }
    let s2 = cut as u16;
    if fields.len() > 0 && ty.prop_index@.contains_key(prop) {
        let j = ty.prop_index@[prop] as int;
        assert(exists|i: int| 0 <= i < fields.len() && #[trigger] fields[i].name@ == prop);
        let i = choose|i: int| 0 <= i < fields.len() && #[trigger] fields[i].name@ == prop;
        assert(ty.prop_index@[fields[i].name@] == i);
        let f = fields[j];
        if f.bits > 0 {
            let o = f.offset as nat;
            let b = f.bits as nat;
            if k == bits_total(fields, n) {
                lemma_small_layout_in_word(fields);
                lemma_bits_total_is_end(fields, n);
                lemma_end_of_mono(fields, j + 1, n);
                lemma_digit_below(state as nat, o, b, k);
            } else {
                vstd::arithmetic::div_mod::lemma_small_mod(state as nat, pow2(k));
            }
            assert(field_index(f, s2) == field_index(f, state));
        }
    }
}

/// The cached face material agrees with the direct lookup (missing
/// materials read as the fallback) for every state and the top, bottom
/// and side roles.
pub proof fn lemma_material_cached_agrees(ty: BlockType, unknown: MaterialId, role: FaceRole, state: BlockState)
    requires
        ty.layout_wf(),
        ty.tables_hold(unknown),
        role != FaceRole::All,
    ensures
        ty.spec_material_cached(role, state) == or_unknown(ty.materials.spec_material_for(role, state, ty), unknown),
{
    let len = table_len(ty.state_fields@);
    lemma_pow2_pos(table_bits(ty.state_fields@));
    let i = (state as nat % len) as int;
    vstd::arithmetic::div_mod::lemma_mod_pos_bound(state as int, len as int);
    match ty.materials.pick(role) {
        Some(crate::registry::ResolvedSelector::By { by, .. }) => {
            lemma_prop_value_low_bits(ty, state, by@);
        },
        _ => {},
    }
    assert(i < ty.pre_mat_top@.len());
}

/// A cached material depends only on the state cut to the table's width
/// (its low `log2(len)` bits), and `All` reads the side table.
pub proof fn lemma_material_cached_masks(ty: BlockType, role: FaceRole, state: BlockState)
    ensures
        ty.spec_material_cached(role, (state as nat % table_len(ty.state_fields@)) as u16) == ty.spec_material_cached(role, state),
        ty.spec_material_cached(FaceRole::All, state) == ty.spec_material_cached(FaceRole::Side, state),
{
    let k = table_bits(ty.state_fields@);
    let n = table_len(ty.state_fields@);
    lemma_pow2_pos(k);
    lemma2_to64();
    if k < 16 {
        lemma_pow2_strictly_increases(k, 16);
    }
    let cut = state as nat % n;
    vstd::arithmetic::div_mod::lemma_mod_pos_bound(state as int, n as int);
    assert(cut < 65536);
    assert((cut as u16) as nat == cut);
    vstd::arithmetic::div_mod::lemma_mod_twice(state as int, n as int);
}

/// The cached occlusion mask agrees with the one computed from the state.
pub proof fn lemma_occlusion_cached_agrees(ty: BlockType, unknown: MaterialId, state: BlockState)
    requires
        ty.layout_wf(),
        ty.tables_hold(unknown),
    ensures
        ty.spec_occlusion_cached(state) == spec_occlusion(ty, state),
{
    let len = table_len(ty.state_fields@);
    lemma_pow2_pos(table_bits(ty.state_fields@));
    vstd::arithmetic::div_mod::lemma_mod_pos_bound(state as int, len as int);
    match ty.shape {
        Shape::Slab { half_from } => lemma_prop_value_low_bits(ty, state, half_from@),
        Shape::Stairs { half_from, .. } => lemma_prop_value_low_bits(ty, state, half_from@),
        _ => {},
    }
}

impl BlockType {
    /// The layout can pack any property values: in order, within one 32-bit
    /// word, and every field narrower than 32 bits.
    pub open spec fn packable(&self) -> bool {
        &&& self.layout_wf()
        &&& fields_in_word(self.state_fields@)
        &&& forall|i: int| 0 <= i < self.state_fields@.len() ==> #[trigger] self.state_fields@[i].bits < 32
    }
}

impl BlockRegistry {
    /// The configured fallback block, else the block named "unknown", else
    /// `air` (as the configuration's `unknown_block` documents); a registry
    /// with none of these has no fallback.
    pub fn unknown_block_id_or_panic(&self) -> (r: BlockId)
        requires
            self.unknown_block_id is Some || self.by_name@.contains_key("unknown"@) || self.by_name@.contains_key("air"@),
        ensures
            r == match self.unknown_block_id {
                Some(id) => id,
                None => if self.by_name@.contains_key("unknown"@) { self.by_name@["unknown"@] } else { self.by_name@["air"@] },
            },
    {
        match self.unknown_block_id {
            Some(id) => id,
            None => match self.id_by_name("unknown") {
                Some(id) => id,
                None => match self.id_by_name("air") {
                    Some(id) => id,
                    None => {
                        assert(false);
                        0
                    },
                },
            },
        }
    }

    /// The block named `name`, in the state that packs `props` (state 0
    /// without props).
    pub fn make_block_by_name(&self, name: &str, props: Option<&Vec<(String, String)>>) -> (r: Option<Block>)
        requires
            props is Some ==> (self.spec_id_by_name(name@) matches Some(id) ==> ((id as int) < self.blocks@.len() ==> self.blocks@[id as int].packable())),
        ensures
            r == match self.spec_id_by_name(name@) {
                None => None,
                Some(id) => Some(Block {
                    id,
                    state: match props {
                        Some(p) => if (id as int) < self.blocks@.len() { self.blocks@[id as int].spec_pack_state(p@) as u16 } else { 0u16 },
                        None => 0u16,
                    },
                }),
            },
    {
        let id = match self.id_by_name(name) {
            Some(id) => id,
            None => return None,
        };
        let state: BlockState = match props {
            Some(p) => match self.get(id) {
                Some(ty) => ty.pack_state(p),
                None => 0,
            },
            None => 0,
        };
        Some(Block { id, state })
    }
}

fn selector_ok(sel: &Option<MaterialSelector>) -> (r: bool)
    ensures
        r == selector_wf(*sel),
{
    match sel {
        Some(MaterialSelector::By { map, .. }) => keys_unique_exec(map),
        _ => true,
    }
}

/// Whether no key of an association list occurs twice.
pub fn keys_unique_exec<V>(s: &Vec<(String, V)>) -> (r: bool)
    ensures
        r == keys_unique(s@),
{
    let n = s.len();
    let mut i: usize = 0;
    while i < n
        invariant
            n == s@.len(),
            i <= n,
            forall|a: int, b: int| 0 <= a < i && 0 <= b < n && a != b ==> #[trigger] s@[a].0@ != #[trigger] s@[b].0@,
        decreases n - i,
    {
        let mut j: usize = 0;
        while j < n
            invariant
                n == s@.len(),
                i < n,
                j <= n,
                forall|a: int, b: int| 0 <= a < i && 0 <= b < n && a != b ==> #[trigger] s@[a].0@ != #[trigger] s@[b].0@,
                forall|b: int| 0 <= b < j && b != i ==> s@[i as int].0@ != #[trigger] s@[b].0@,
            decreases n - j,
        {
            if j != i && s[i].0 == s[j].0 {
                return false;
            }
            j = j + 1;
        }
        i = i + 1;
    }
    true
}

/// Whether a state schema can be laid out: each property once, and value
/// counts that fit 32 bits.
pub fn schema_fits(schema: &Vec<(String, Vec<String>)>) -> (r: bool)
    ensures
        r == (keys_unique(schema@)
            && (forall|k: int| 0 <= k < schema@.len() ==> (#[trigger] schema@[k]).1@.len() <= u32::MAX)),
{
    if !keys_unique_exec(schema) {
        return false;
    }
    let n = schema.len();
    let mut i: usize = 0;
    while i < n
        invariant
            n == schema@.len(),
            i <= n,
            forall|k: int| 0 <= k < i ==> (#[trigger] schema@[k]).1@.len() <= u32::MAX,
        decreases n - i,
    {
        if schema[i].1.len() > 0xffff_ffff {
            return false;
        }
        i = i + 1;
    }
    true
}


/// Whether the registry can compile a definition (see `def_wf`).
pub fn def_compilable(def: &BlockDef) -> (r: bool)
    ensures
        r == def_wf(*def),
{
    let mats_ok = match &def.materials {
        Some(m) => selector_ok(&m.all) && selector_ok(&m.top) && selector_ok(&m.bottom) && selector_ok(&m.side),
        None => true,
    };
    if !mats_ok {
        return false;
    }
    match &def.state_schema {
        Some(s) => schema_fits(s),
        None => {
            proof {
                assert(def_schema(*def) =~= Seq::<(String, Vec<String>)>::empty());
            }
            true
        },
    }
}

} // verus!
