//! Compiling block config entries: shapes, material selectors, and the
//! per-face material lookup they drive.
use vstd::prelude::*;
use crate::types::{BlockState, FaceRole, MaterialId, Shape};
use crate::config::{MaterialSelector, MaterialsDef, ShapeConfig, ShapeDetailed, PropertyFrom};
use crate::registry::{BlockType, CompiledMaterials, MaterialCatalog, ResolvedSelector, assoc_lookup, assoc_position, lemma_assoc_lookup_some};
use crate::layout::keys_unique;

verus! {

/// A shape read back as plain values, for comparing shapes in contracts.
pub open spec fn shape_view(s: Shape) -> (int, Seq<char>, Seq<char>) {
    match s {
        Shape::Cube => (0, Seq::empty(), Seq::empty()),
        Shape::AxisCube { axis_from } => (1, axis_from@, Seq::empty()),
        Shape::Slab { half_from } => (2, half_from@, Seq::empty()),
        Shape::Stairs { facing_from, half_from } => (3, facing_from@, half_from@),
        Shape::Invisible => (4, Seq::empty(), Seq::empty()),
    }
}

/// The property a shape reads from, or `default` when none is given.
pub open spec fn from_or(p: Option<PropertyFrom>, default: Seq<char>) -> Seq<char> {
    match p {
        Some(p) => p.from@,
        None => default,
    }
}

/// The shape a config entry describes: no entry is a cube; an unknown kind
/// emits nothing.
pub open spec fn spec_compile_shape(shape: Option<ShapeConfig>) -> (int, Seq<char>, Seq<char>) {
    match shape {
        None => (0, Seq::empty(), Seq::empty()),
        Some(ShapeConfig::Simple(s)) => if s@ == "cube"@ {
            (0, Seq::empty(), Seq::empty())
        } else {
            (4, Seq::empty(), Seq::empty())
        },
        Some(ShapeConfig::Detailed(d)) => if d.kind@ == "cube"@ {
            (0, Seq::empty(), Seq::empty())
        } else if d.kind@ == "axis_cube"@ {
            (1, from_or(d.axis, "axis"@), Seq::empty())
        } else if d.kind@ == "slab"@ {
            (2, from_or(d.half, "half"@), Seq::empty())
        } else if d.kind@ == "stairs"@ {
            (3, from_or(d.facing, "facing"@), from_or(d.half, "half"@))
        } else {
            (4, Seq::empty(), Seq::empty())
        },
    }
}

fn prop_or(p: Option<PropertyFrom>, default: &str) -> (r: String)
    ensures
        r@ == from_or(p, default@),
{
    match p {
        Some(p) => p.from,
        None => default.to_owned(),
    }
}

fn is_str(s: &String, lit: &str) -> (r: bool)
    ensures
        r == (s@ == lit@),
{
    let l = lit.to_owned();
    *s == l
}

/// Compiles a shape config entry.
pub fn compile_shape(shape: Option<ShapeConfig>) -> (r: Shape)
    ensures
        shape_view(r) == spec_compile_shape(shape),
{
    match shape {
        None => Shape::Cube,
        Some(ShapeConfig::Simple(s)) => {
            if is_str(&s, "cube") {
                Shape::Cube
            } else {
                Shape::Invisible
            }
        },
        Some(ShapeConfig::Detailed(ShapeDetailed { kind, axis, half, facing, .. })) => {
            if is_str(&kind, "cube") {
                Shape::Cube
            } else if is_str(&kind, "axis_cube") {
                Shape::AxisCube { axis_from: prop_or(axis, "axis") }
            } else if is_str(&kind, "slab") {
                Shape::Slab { half_from: prop_or(half, "half") }
            } else if is_str(&kind, "stairs") {
                Shape::Stairs { facing_from: prop_or(facing, "facing"), half_from: prop_or(half, "half") }
            } else {
                Shape::Invisible
            }
        },
    }
}

/// What a by-property selector maps key `k` to once its material names are
/// resolved: nothing when the key is absent or its material is unknown.
pub open spec fn resolved_lookup(cat: MaterialCatalog, map: Seq<(String, String)>, k: Seq<char>) -> Option<MaterialId> {
    match assoc_lookup(map, k) {
        Some(v) => cat.spec_get_id(v@),
        None => None,
    }
}

/// `r` is what selector `sel` compiles to against `cat`: a key becomes its
/// material (or nothing if unknown), a by-property map keeps the entries
/// whose material is known.
pub open spec fn selector_compiled(r: Option<ResolvedSelector>, sel: Option<MaterialSelector>, cat: MaterialCatalog) -> bool {
    match sel {
        None => r is None,
        Some(MaterialSelector::Key(k)) => match cat.spec_get_id(k@) {
            Some(id) => r == Some(ResolvedSelector::Fixed(id)),
            None => r is None,
        },
        Some(MaterialSelector::By { by, map }) => match r {
            Some(ResolvedSelector::By { by: b2, map: m2 }) => b2@ == by@ && forall|k: Seq<char>| #[trigger] assoc_lookup(m2@, k) == resolved_lookup(cat, map@, k),
            _ => false,
        },
    }
}

/// Looking up in a list after appending an entry.
pub proof fn lemma_assoc_lookup_push<V>(s: Seq<(String, V)>, e: (String, V), k: Seq<char>)
    ensures
        assoc_lookup(s.push(e), k) == (if assoc_lookup(s, k) is Some {
            assoc_lookup(s, k)
        } else if e.0@ == k {
            Some(e.1)
        } else {
            None
        }),
    decreases s.len(),
{
    let t = s.push(e);
    if s.len() > 0 {
        assert(t.drop_first() =~= s.drop_first().push(e));
        assert(t[0] == s[0]);
        lemma_assoc_lookup_push(s.drop_first(), e, k);
        assert(assoc_lookup(t, k) == if t[0].0@ == k { Some(t[0].1) } else { assoc_lookup(t.drop_first(), k) });
        assert(assoc_lookup(s, k) == if s[0].0@ == k { Some(s[0].1) } else { assoc_lookup(s.drop_first(), k) });
    } else {
        assert(t.drop_first() =~= Seq::<(String, V)>::empty());
        assert(t[0] == e);
        assert(assoc_lookup(t, k) == if t[0].0@ == k { Some(t[0].1) } else { assoc_lookup(t.drop_first(), k) });
    }
}

/// Every by-property map of a selector holds each key once.
pub open spec fn selector_wf(sel: Option<MaterialSelector>) -> bool {
    match sel {
        Some(MaterialSelector::By { map, .. }) => keys_unique(map@),
        _ => true,
    }
}

pub open spec fn materials_wf(mats: Option<MaterialsDef>) -> bool {
    match mats {
        Some(m) => selector_wf(m.all) && selector_wf(m.top) && selector_wf(m.bottom) && selector_wf(m.side),
        None => true,
    }
}

fn resolve_selector(cat: &MaterialCatalog, sel: &MaterialSelector) -> (r: Option<ResolvedSelector>)
    requires
        selector_wf(Some(*sel)),
    ensures
        selector_compiled(r, Some(*sel), *cat),
{
    match sel {
        MaterialSelector::Key(k) => match cat.get_id(k.as_str()) {
            Some(id) => Some(ResolvedSelector::Fixed(id)),
            None => None,
        },
        MaterialSelector::By { by, map } => {
            let mut out: Vec<(String, MaterialId)> = Vec::new();
            let mut i: usize = 0;
            while i < map.len()
                invariant
                    keys_unique(map@),
                    i <= map@.len(),
                    forall|k: Seq<char>| #[trigger] assoc_lookup(out@, k) == resolved_lookup(*cat, map@.take(i as int), k),
                decreases map@.len() - i,
            {
                let ghost o0 = out@;
                let ghost pre = map@.take(i as int);
                assert(map@.take(i as int + 1) =~= pre.push(map@[i as int]));
                match cat.get_id(map[i].1.as_str()) {
                    Some(id) => {
                        let name = map[i].0.clone();
                        let ghost e = (name, id);
                        out.push((name, id));
                        proof {
                            assert(out@ == o0.push(e));
                            assert(e.0@ == map@[i as int].0@);
                            assert(cat.spec_get_id(map@[i as int].1@) == Some(id));
                            assert forall|k: Seq<char>| #[trigger] assoc_lookup(out@, k) == resolved_lookup(*cat, map@.take(i as int + 1), k) by {
                                lemma_assoc_lookup_push(pre, map@[i as int], k);
                                lemma_assoc_lookup_push(o0, e, k);
                                lemma_assoc_lookup_some(pre, k);
                                if assoc_lookup(pre, k) is Some {
                                    let j = choose|j: int| 0 <= j < pre.len() && #[trigger] pre[j].0@ == k;
                                    assert(map@[j].0@ == k);
                                }
                            }
                        }
                    },
                    None => {
                        proof {
                            assert forall|k: Seq<char>| #[trigger] assoc_lookup(out@, k) == resolved_lookup(*cat, map@.take(i as int + 1), k) by {
                                lemma_assoc_lookup_push(pre, map@[i as int], k);
                            }
                        }
                    },
                }
                i = i + 1;
            }
            assert(map@.take(map@.len() as int) =~= map@);
            Some(ResolvedSelector::By { by: by.clone(), map: out })
        },
    }
}

/// The empty compiled material set.
pub fn no_materials() -> (r: CompiledMaterials)
    ensures
        r.all is None && r.top is None && r.bottom is None && r.side is None,
{
    CompiledMaterials { all: None, top: None, bottom: None, side: None }
}

/// Compiles a block's material mapping against the material catalog.
pub fn compile_materials(cat: &MaterialCatalog, mats: Option<MaterialsDef>) -> (r: CompiledMaterials)
    requires
        materials_wf(mats),
    ensures
        match mats {
            None => r.all is None && r.top is None && r.bottom is None && r.side is None,
            Some(m) => selector_compiled(r.all, m.all, *cat) && selector_compiled(r.top, m.top, *cat)
                && selector_compiled(r.bottom, m.bottom, *cat) && selector_compiled(r.side, m.side, *cat),
        },
{
    let mut out = no_materials();
    if let Some(m) = mats {
        if let Some(ref all) = m.all {
            out.all = resolve_selector(cat, all);
        }
        if let Some(ref top) = m.top {
            out.top = resolve_selector(cat, top);
        }
        if let Some(ref bottom) = m.bottom {
            out.bottom = resolve_selector(cat, bottom);
        }
        if let Some(ref side) = m.side {
            out.side = resolve_selector(cat, side);
        }
    }
    out
}

impl CompiledMaterials {
    /// The selector for a face role, falling back to `all`.
    pub open spec fn pick(&self, role: FaceRole) -> Option<ResolvedSelector> {
        match role {
            FaceRole::Top => if self.top is Some { self.top } else { self.all },
            FaceRole::Bottom => if self.bottom is Some { self.bottom } else { self.all },
            FaceRole::Side => if self.side is Some { self.side } else { self.all },
            FaceRole::All => self.all,
        }
    }

    /// The material for a face of a block in `state`: a fixed selector's
    /// material, or the entry of a by-property map for the value the state
    /// holds for that property.
    pub open spec fn spec_material_for(&self, role: FaceRole, state: BlockState, ty: BlockType) -> Option<MaterialId> {
        match self.pick(role) {
            None => None,
            Some(ResolvedSelector::Fixed(id)) => Some(id),
            Some(ResolvedSelector::By { by, map }) => match ty.spec_prop_value(state, by@) {
                Some(v) => assoc_lookup(map@, v),
                None => None,
            },
        }
    }

    fn pick_exec(&self, role: FaceRole) -> (r: Option<&ResolvedSelector>)
        ensures
            match r {
                Some(s) => self.pick(role) == Some(*s),
                None => self.pick(role) is None,
            },
    {
        match role {
            FaceRole::Top => if self.top.is_some() { self.top.as_ref() } else { self.all.as_ref() },
            FaceRole::Bottom => if self.bottom.is_some() { self.bottom.as_ref() } else { self.all.as_ref() },
            FaceRole::Side => if self.side.is_some() { self.side.as_ref() } else { self.all.as_ref() },
            FaceRole::All => self.all.as_ref(),
        }
    }

    /// Material for a face role of a block in `state`.
    pub fn material_for(&self, role: FaceRole, state: BlockState, ty: &BlockType) -> (r: Option<MaterialId>)
        requires
            ty.index_wf(),
        ensures
            r == self.spec_material_for(role, state, *ty),
    {
        match self.pick_exec(role) {
            None => None,
            Some(ResolvedSelector::Fixed(id)) => Some(*id),
            Some(ResolvedSelector::By { by, map }) => {
                match ty.state_prop_value(state, by.as_str()) {
                    Some(val) => match assoc_position(map, val) {
                        Some(p) => Some(map[p].1),
                        None => None,
                    },
                    None => None,
                }
            },
        }
    }

    /// The material for a face given named property values in place of a state.
    pub open spec fn spec_material_for_props(&self, role: FaceRole, props: Seq<(String, String)>) -> Option<MaterialId> {
        match self.pick(role) {
            None => None,
            Some(ResolvedSelector::Fixed(id)) => Some(id),
            Some(ResolvedSelector::By { by, map }) => match assoc_lookup(props, by@) {
                Some(v) => assoc_lookup(map@, v@),
                None => None,
            },
        }
    }

    /// Material for a face role given named property values.
    pub fn material_for_props(&self, role: FaceRole, props: &Vec<(String, String)>) -> (r: Option<MaterialId>)
        ensures
            r == self.spec_material_for_props(role, props@),
    {
        match self.pick_exec(role) {
            None => None,
            Some(ResolvedSelector::Fixed(id)) => Some(*id),
            Some(ResolvedSelector::By { by, map }) => {
                match assoc_position(props, by.as_str()) {
                    Some(p) => match assoc_position(map, props[p].1.as_str()) {
                        Some(q) => Some(map[q].1),
                        None => None,
                    },
                    None => None,
                }
            },
        }
    }
}

} // verus!
