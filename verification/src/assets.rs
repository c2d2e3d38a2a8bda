//! Asset locations under an assets root, and the registry fix-ups that
//! depend on that root.
use vstd::prelude::*;
use vstd::string::{StrSliceExecFns, StringExecFns};
use crate::registry::{BlockRegistry, Material};

verus! {

/// `rel` joined onto `root` as a path: a separator goes between them
/// unless `root` is empty or already ends in one.
pub open spec fn join_path(root: Seq<char>, rel: Seq<char>) -> Seq<char> {
    if root.len() == 0 {
        rel
    } else if root.last() == '/' {
        root + rel
    } else {
        root + seq!['/'] + rel
    }
}

/// Joins a relative path onto `root`.
pub fn join(root: &str, rel: &str) -> (r: String)
    ensures
        r@ == join_path(root@, rel@),
{
    let mut s = root.to_owned();
    let n = root.unicode_len();
    if n > 0 && root.get_char(n - 1) != '/' {
        proof {
            reveal_strlit("/");
        }
        s.append("/");
    }
    s.append(rel);
    s
}

pub fn materials_path(root: &str) -> (r: String)
    ensures
        r@ == join_path(root@, "assets/voxels/materials.toml"@),
{
    join(root, "assets/voxels/materials.toml")
}

pub fn blocks_path(root: &str) -> (r: String)
    ensures
        r@ == join_path(root@, "assets/voxels/blocks.toml"@),
{
    join(root, "assets/voxels/blocks.toml")
}

pub fn hotbar_path(root: &str) -> (r: String)
    ensures
        r@ == join_path(root@, "assets/voxels/hotbar.toml"@),
{
    join(root, "assets/voxels/hotbar.toml")
}

pub fn textures_dir(root: &str) -> (r: String)
    ensures
        r@ == join_path(root@, "assets/blocks"@),
{
    join(root, "assets/blocks")
}

pub fn shaders_dir(root: &str) -> (r: String)
    ensures
        r@ == join_path(root@, "assets/shaders"@),
{
    join(root, "assets/shaders")
}

pub fn schematics_dir(root: &str) -> (r: String)
    ensures
        r@ == join_path(root@, "schematics"@),
{
    join(root, "schematics")
}

/// A path is relative unless it starts at the root directory.
pub open spec fn is_relative(p: Seq<char>) -> bool {
    p.len() == 0 || p[0] != '/'
}

/// A texture path as the registry keeps it: relative paths are taken
/// from the assets root.
pub open spec fn resolved_texture(root: Seq<char>, p: Seq<char>) -> Seq<char> {
    if is_relative(p) { join_path(root, p) } else { p }
}

/// Materials whose texture candidates are resolved against `root`.
pub open spec fn textures_resolved(before: Seq<Material>, after: Seq<Material>, root: Seq<char>) -> bool {
    &&& after.len() == before.len()
    &&& forall|i: int| 0 <= i < after.len() ==> {
        &&& (#[trigger] after[i]).name@ == before[i].name@
        &&& after[i].texture_candidates@.len() == before[i].texture_candidates@.len()
        &&& forall|j: int| 0 <= j < after[i].texture_candidates@.len() ==>
            (#[trigger] after[i].texture_candidates@[j])@ == resolved_texture(root, before[i].texture_candidates@[j]@)
    }
}

fn resolve_material(m: &Material, root: &str) -> (r: Material)
    ensures
        r.name@ == m.name@,
        r.texture_candidates@.len() == m.texture_candidates@.len(),
        forall|j: int| 0 <= j < r.texture_candidates@.len() ==>
            (#[trigger] r.texture_candidates@[j])@ == resolved_texture(root@, m.texture_candidates@[j]@),
{
    let mut out: Vec<String> = Vec::new();
    let mut j: usize = 0;
    while j < m.texture_candidates.len()
        invariant
            j <= m.texture_candidates@.len(),
            out@.len() == j,
            forall|k: int| 0 <= k < j ==> (#[trigger] out@[k])@ == resolved_texture(root@, m.texture_candidates@[k]@),
        decreases m.texture_candidates@.len() - j,
    {
        let p = m.texture_candidates[j].as_str();
        let relative = p.unicode_len() == 0 || p.get_char(0) != '/';
        if relative {
            out.push(join(root, p));
        } else {
            out.push(p.to_owned());
        }
        j = j + 1;
    }
    Material { name: m.name.clone(), texture_candidates: out }
}

/// The registry as loaded, or an empty one when loading failed, with
/// every relative texture path taken from the assets root.
pub fn load_block_registry(loaded: Option<BlockRegistry>, assets_root: &str) -> (r: BlockRegistry)
    ensures
        match loaded {
            Some(reg) => {
                &&& r.blocks@ == reg.blocks@
                &&& r.by_name@ == reg.by_name@
                &&& r.unknown_block_id == reg.unknown_block_id
                &&& textures_resolved(reg.materials.materials@, r.materials.materials@, assets_root@)
            },
            None => {
                &&& r.blocks@.len() == 0
                &&& r.by_name@ == Map::<Seq<char>, crate::types::BlockId>::empty()
                &&& r.unknown_block_id is None
                &&& r.materials.materials@.len() == 0
            },
        },
{
    let mut reg = match loaded {
        Some(reg) => reg,
        None => BlockRegistry::new(),
    };
    let ghost before = reg.materials.materials@;
    let mut resolved: Vec<Material> = Vec::new();
    let mut i: usize = 0;
    while i < reg.materials.materials.len()
        invariant
            before == reg.materials.materials@,
            i <= before.len(),
            resolved@.len() == i,
            forall|k: int| 0 <= k < i ==> {
                &&& (#[trigger] resolved@[k]).name@ == before[k].name@
                &&& resolved@[k].texture_candidates@.len() == before[k].texture_candidates@.len()
                &&& forall|j: int| 0 <= j < resolved@[k].texture_candidates@.len() ==>
                    (#[trigger] resolved@[k].texture_candidates@[j])@ == resolved_texture(assets_root@, before[k].texture_candidates@[j]@)
            },
        decreases before.len() - i,
    {
        let m = resolve_material(&reg.materials.materials[i], assets_root);
        resolved.push(m);
        i = i + 1;
    }
    reg.materials.materials = resolved;
    reg
}

} // verus!
