//! Runtime block registry: block types compiled from the config, state
//! packing, and cached per-state lookups.
use vstd::prelude::*;
use crate::types::{Block, BlockId, BlockState, FaceRole, MaterialId, Shape};
use crate::config::SourceDirs;
use vstd::hash_map::StringHashMap;

verus! {

/// First value stored under key `k` in an association list.
pub open spec fn assoc_lookup<V>(s: Seq<(String, V)>, k: Seq<char>) -> Option<V>
    decreases s.len(),
{
    if s.len() == 0 {
        None
    } else if s[0].0@ == k {
        Some(s[0].1)
    } else {
        assoc_lookup(s.drop_first(), k)
    }
}

/// Looking up in a suffix: the first entry decides or the rest does.
pub proof fn lemma_assoc_lookup_step<V>(s: Seq<(String, V)>, i: int, k: Seq<char>)
    requires
        0 <= i < s.len(),
    ensures
        assoc_lookup(s.subrange(i, s.len() as int), k) == (if s[i].0@ == k {
            Some(s[i].1)
        } else {
            assoc_lookup(s.subrange(i + 1, s.len() as int), k)
        }),
{
    assert(s.subrange(i, s.len() as int).drop_first() =~= s.subrange(i + 1, s.len() as int));
}

/// A found key is the key of some entry.
pub proof fn lemma_assoc_lookup_some<V>(s: Seq<(String, V)>, k: Seq<char>)
    ensures
        assoc_lookup(s, k) is Some ==> exists|j: int| 0 <= j < s.len() && #[trigger] s[j].0@ == k,
    decreases s.len(),
{
    if s.len() > 0 && s[0].0@ != k {
        lemma_assoc_lookup_some(s.drop_first(), k);
        if assoc_lookup(s, k) is Some {
            let j = choose|j: int| 0 <= j < s.drop_first().len() && #[trigger] s.drop_first()[j].0@ == k;
            assert(s[j + 1].0@ == k);
        }
    }
}

/// Position of the first entry stored under key `k` in an association list.
pub fn assoc_position<V>(s: &Vec<(String, V)>, k: &str) -> (r: Option<usize>)
    ensures
        match r {
            Some(i) => i < s@.len() && assoc_lookup(s@, k@) == Some(s@[i as int].1) && s@[i as int].0@ == k@,
            None => assoc_lookup(s@, k@) is None,
        },
{
    let key = k.to_owned();
    let mut i: usize = 0;
    assert(s@.subrange(0, s@.len() as int) =~= s@);
    while i < s.len()
        invariant
            i <= s@.len(),
            key@ == k@,
            assoc_lookup(s@.subrange(i as int, s@.len() as int), k@) == assoc_lookup(s@, k@),
        decreases s@.len() - i,
    {
        proof {
            lemma_assoc_lookup_step(s@, i as int, k@);
        }
        if s[i].0 == key {
            return Some(i);
        }
        i = i + 1;
    }
    proof {
        assert(s@.subrange(i as int, s@.len() as int).len() == 0);
    }
    None
}

/// A material entry of the catalog.
pub struct Material {
    pub name: String,
    pub texture_candidates: Vec<String>,
}

/// Catalog of materials; a material's id is its position in `materials`.
pub struct MaterialCatalog {
    pub materials: Vec<Material>,
}

/// Position of the first material named `name`.
pub open spec fn material_index(m: Seq<Material>, name: Seq<char>) -> Option<int>
    decreases m.len(),
{
    if m.len() == 0 {
        None
    } else if m.last().name@ == name && material_index(m.drop_last(), name) is None {
        Some(m.len() - 1)
    } else {
        material_index(m.drop_last(), name)
    }
}

impl MaterialCatalog {
    pub fn new() -> (c: MaterialCatalog)
        ensures
            c.materials@.len() == 0,
    {
        MaterialCatalog { materials: Vec::new() }
    }

    pub open spec fn spec_get_id(&self, name: Seq<char>) -> Option<MaterialId> {
        match material_index(self.materials@, name) {
            Some(i) => Some(MaterialId(i as u16)),
            None => None,
        }
    }

    /// Id of the first material with the given name.
    pub fn get_id(&self, name: &str) -> (r: Option<MaterialId>)
        ensures
            r == self.spec_get_id(name@),
    {
        let key = name.to_owned();
        let mut i: usize = 0;
        while i < self.materials.len()
            invariant
                i <= self.materials@.len(),
                key@ == name@,
                material_index(self.materials@.subrange(0, i as int), name@) is None,
            decreases self.materials@.len() - i,
        {
            if self.materials[i].name == key {
                proof {
                    let m = self.materials@.subrange(0, i as int + 1);
                    assert(m.drop_last() =~= self.materials@.subrange(0, i as int));
                    lemma_material_index_prefix(self.materials@, i as int + 1, name@);
                }
                return Some(MaterialId(i as u16));
            }
            proof {
                let m = self.materials@.subrange(0, i as int + 1);
                assert(m.drop_last() =~= self.materials@.subrange(0, i as int));
            }
            i = i + 1;
        }
        assert(self.materials@.subrange(0, i as int) =~= self.materials@);
        None
    }
}

/// Once a prefix holds the name, the whole sequence finds it at the same place.
pub proof fn lemma_material_index_prefix(m: Seq<Material>, n: int, name: Seq<char>)
    requires
        0 <= n <= m.len(),
        material_index(m.subrange(0, n), name) is Some,
    ensures
        material_index(m, name) == material_index(m.subrange(0, n), name),
    decreases m.len() - n,
{
    if n < m.len() {
        let p = m.subrange(0, n + 1);
        assert(p.drop_last() =~= m.subrange(0, n));
        lemma_material_index_prefix(m, n + 1, name);
    } else {
        assert(m.subrange(0, n) =~= m);
    }
}

/// One property of a block's state layout.
pub struct StateField {
    pub name: String,
    pub values: Vec<String>,
    pub bits: u32,
    pub offset: u32,
}

/// Material selectors resolved against the material catalog.
pub struct CompiledMaterials {
    pub all: Option<ResolvedSelector>,
    pub top: Option<ResolvedSelector>,
    pub bottom: Option<ResolvedSelector>,
    pub side: Option<ResolvedSelector>,
}

pub enum ResolvedSelector {
    Fixed(MaterialId),
    By { by: String, map: Vec<(String, MaterialId)> },
}

#[derive(Clone, Copy, Debug, PartialEq, Eq, Structural)]
pub enum CompiledLight {
    Omni { attenuation: u8, max_range: Option<u16> },
    Beam {
        straight_cost: u8,
        turn_cost: u8,
        vertical_cost: u8,
        source_dirs: SourceDirs,
        max_range: Option<u16>,
    },
}

pub struct BlockType {
    pub id: BlockId,
    pub name: String,
    pub solid: bool,
    pub blocks_skylight: bool,
    pub propagates_light: bool,
    pub emission: u8,
    pub light: CompiledLight,
    pub shape: Shape,
    pub materials: CompiledMaterials,
    /// Precomputed role -> material lookup per state.
    pub pre_mat_top: Vec<MaterialId>,
    pub pre_mat_bottom: Vec<MaterialId>,
    pub pre_mat_side: Vec<MaterialId>,
    /// Precomputed occlusion mask per state (6 bits in face order).
    pub pre_occ_mask: Vec<u8>,
    /// property name -> allowed values
    pub state_schema: Vec<(String, Vec<String>)>,
    /// Sorted layout for state packing and unpacking.
    pub state_fields: Vec<StateField>,
    /// property name -> position in `state_fields`
    pub prop_index: StringHashMap<usize>,
}

impl BlockType {
    pub fn is_solid(&self, _state: BlockState) -> (r: bool)
        ensures
            r == self.solid,
    {
        self.solid
    }

    pub fn blocks_skylight(&self, _state: BlockState) -> (r: bool)
        ensures
            r == self.blocks_skylight,
    {
        self.blocks_skylight
    }

    pub fn propagates_light(&self, _state: BlockState) -> (r: bool)
        ensures
            r == self.propagates_light,
    {
        self.propagates_light
    }

    pub fn light_emission(&self, _state: BlockState) -> (r: u8)
        ensures
            r == self.emission,
    {
        self.emission
    }

    pub fn debug_name(&self) -> (r: &str)
        ensures
            r@ == self.name@,
    {
        self.name.as_str()
    }

    pub fn light_is_beam(&self) -> (r: bool)
        ensures
            r == (self.light is Beam),
    {
        match self.light {
            CompiledLight::Beam { .. } => true,
            _ => false,
        }
    }

    /// Attenuation of an omni light; 32 for beams.
    pub fn omni_attenuation(&self) -> (r: u8)
        ensures
            r == (match self.light {
                CompiledLight::Omni { attenuation, .. } => attenuation,
                _ => 32u8,
            }),
    {
        match self.light {
            CompiledLight::Omni { attenuation, .. } => attenuation,
            _ => 32,
        }
    }

    /// Costs and source directions of a beam; `(1, 32, 32, Horizontal)` for omni lights.
    pub fn beam_params(&self) -> (r: (u8, u8, u8, SourceDirs))
        ensures
            r == (match self.light {
                CompiledLight::Beam { straight_cost, turn_cost, vertical_cost, source_dirs, .. } =>
                    (straight_cost, turn_cost, vertical_cost, source_dirs),
                _ => (1u8, 32u8, 32u8, SourceDirs::Horizontal),
            }),
    {
        match self.light {
            CompiledLight::Beam { straight_cost, turn_cost, vertical_cost, source_dirs, .. } =>
                (straight_cost, turn_cost, vertical_cost, source_dirs),
            _ => (1, 32, 32, SourceDirs::Horizontal),
        }
    }
}

pub struct BlockRegistry {
    pub materials: MaterialCatalog,
    pub blocks: Vec<BlockType>,
    /// block name -> id
    pub by_name: StringHashMap<BlockId>,
    pub unknown_block_id: Option<BlockId>,
}

impl BlockRegistry {
    /// An empty registry.
    pub fn new() -> (r: BlockRegistry)
        ensures
            r.blocks@.len() == 0,
            r.by_name@ == Map::<Seq<char>, BlockId>::empty(),
            r.materials.materials@.len() == 0,
            r.unknown_block_id is None,
    {
        BlockRegistry {
            materials: MaterialCatalog::new(),
            blocks: Vec::new(),
            by_name: StringHashMap::new(),
            unknown_block_id: None,
        }
    }

    pub open spec fn spec_get(&self, id: BlockId) -> Option<BlockType> {
        if (id as int) < self.blocks@.len() {
            Some(self.blocks@[id as int])
        } else {
            None
        }
    }

    pub open spec fn spec_id_by_name(&self, name: Seq<char>) -> Option<BlockId> {
        if self.by_name@.contains_key(name) {
            Some(self.by_name@[name])
        } else {
            None
        }
    }

    pub fn get(&self, id: BlockId) -> (r: Option<&BlockType>)
        ensures
            r is Some <==> self.spec_get(id) is Some,
            r matches Some(t) ==> *t == self.spec_get(id)->0,
    {
        if (id as usize) < self.blocks.len() {
            Some(&self.blocks[id as usize])
        } else {
            None
        }
    }

    pub fn id_by_name(&self, name: &str) -> (r: Option<BlockId>)
        ensures
            r == self.spec_id_by_name(name@),
    {
        match self.by_name.get(name) {
            Some(id) => Some(*id),
            None => None,
        }
    }
}

} // verus!
