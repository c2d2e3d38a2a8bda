//! Greedy meshing of a chunk: for each face direction and each slice of
//! the chunk across it, the visible faces form a mask that is covered by
//! greedy rectangles. Which faces are visible, and with what material and
//! light, is decided by the caller.
use vstd::prelude::*;
use crate::types::{Block, MaterialId};
use crate::chunkbuf::ChunkBuf;
use crate::meshutil::Face;
use crate::greedy::{FaceCode, GreedyRect, greedy_rects, greedy_decomposition};
use crate::grid::{grid_idx, lemma_grid_idx_bounds};

verus! {

/// The rectangles of one slice: faces of direction `face` on cells whose
/// coordinate across the slice is `layer`.
pub struct SliceRects {
    pub face: Face,
    pub layer: usize,
    pub rects: Vec<GreedyRect>,
}

/// Slices in meshing order: +Y then -Y layers bottom up, then for each x
/// the -X and +X slices, then for each z the -Z and +Z slices.
pub open spec fn slice_order(sx: nat, sy: nat, sz: nat) -> Seq<(Face, nat)> {
    Seq::new(sy, |i: int| (Face::PosY, i as nat))
        + Seq::new(sy, |i: int| (Face::NegY, i as nat))
        + Seq::new(2 * sx, |i: int| (if i % 2 == 0 { Face::NegX } else { Face::PosX }, (i / 2) as nat))
        + Seq::new(2 * sz, |i: int| (if i % 2 == 0 { Face::NegZ } else { Face::PosZ }, (i / 2) as nat))
}

/// Width and height of the slices of a face direction: x by z for Y
/// faces, z by y for X faces, x by y for Z faces.
pub open spec fn slice_dims(face: Face, sx: nat, sy: nat, sz: nat) -> (nat, nat) {
    match face {
        Face::PosY | Face::NegY => (sx, sz),
        Face::PosX | Face::NegX => (sz, sy),
        Face::PosZ | Face::NegZ => (sx, sy),
    }
}

/// The chunk cell at `(u, v)` of slice `layer` of a face direction.
pub open spec fn slice_cell(face: Face, layer: int, u: int, v: int) -> (int, int, int) {
    match face {
        Face::PosY | Face::NegY => (u, layer, v),
        Face::PosX | Face::NegX => (layer, v, u),
        Face::PosZ | Face::NegZ => (u, v, layer),
    }
}

/// What the caller's face test gives for a cell's face.
pub open spec fn info_of<F: Fn(usize, usize, usize, Face, Block) -> Option<FaceCode>>(f: F, x: int, y: int, z: int, face: Face, b: Block) -> Option<FaceCode> {
    choose|r: Option<FaceCode>| #[trigger] f.ensures((x as usize, y as usize, z as usize, face, b), r)
}

/// The face mask of a slice, row-major over its `(u, v)` cells.
pub open spec fn face_mask<F: Fn(usize, usize, usize, Face, Block) -> Option<FaceCode>>(buf: ChunkBuf, f: F, face: Face, layer: int) -> Seq<Option<FaceCode>> {
    let (w, h) = slice_dims(face, buf.sx as nat, buf.sy as nat, buf.sz as nat);
    Seq::new(w * h, |c: int| {
        let (x, y, z) = slice_cell(face, layer, c % (w as int), c / (w as int));
        info_of(f, x, y, z, face, buf.spec_local(x, y, z))
    })
}

/// Each entry of a slice's face mask is an answer the face test gives for
/// its cell.
pub open spec fn mask_answered<F: Fn(usize, usize, usize, Face, Block) -> Option<FaceCode>>(buf: ChunkBuf, f: F, face: Face, layer: int) -> bool {
    let (w, h) = slice_dims(face, buf.sx as nat, buf.sy as nat, buf.sz as nat);
    forall|c: int| 0 <= c < w * h ==> {
        let (x, y, z) = slice_cell(face, layer, c % (w as int), c / (w as int));
        f.ensures((x as usize, y as usize, z as usize, face, buf.spec_local(x, y, z)), #[trigger] face_mask(buf, f, face, layer)[c])
    }
}

/// The face test gives one answer per cell and face.
pub open spec fn deterministic<F: Fn(usize, usize, usize, Face, Block) -> Option<FaceCode>>(f: F) -> bool {
    forall|a: (usize, usize, usize, Face, Block), r1: Option<FaceCode>, r2: Option<FaceCode>|
        #[trigger] f.ensures(a, r1) && #[trigger] f.ensures(a, r2) ==> r1 == r2
}

fn slice_mask<F: Fn(usize, usize, usize, Face, Block) -> Option<FaceCode>>(buf: &ChunkBuf, face_info: &F, face: Face, layer: usize) -> (m: Vec<Option<FaceCode>>)
    requires
        buf.wf(),
        buf.sx * buf.sy <= usize::MAX,
        buf.sx * buf.sy * buf.sz <= usize::MAX,
        layer < (match face {
            Face::PosY | Face::NegY => buf.sy,
            Face::PosX | Face::NegX => buf.sx,
            Face::PosZ | Face::NegZ => buf.sz,
        }),
        forall|a: (usize, usize, usize, Face, Block)| face_info.requires(a),
        deterministic(*face_info),
    ensures
        m@ == face_mask(*buf, *face_info, face, layer as int),
        mask_answered(*buf, *face_info, face, layer as int),
{
    let (w, h): (usize, usize) = match face {
        Face::PosY | Face::NegY => (buf.sx, buf.sz),
        Face::PosX | Face::NegX => (buf.sz, buf.sy),
        Face::PosZ | Face::NegZ => (buf.sx, buf.sy),
    };
    let ghost target = face_mask(*buf, *face_info, face, layer as int);
    let d: usize = match face {
        Face::PosY | Face::NegY => buf.sy,
        Face::PosX | Face::NegX => buf.sx,
        Face::PosZ | Face::NegZ => buf.sz,
    };
    proof {
        assert(w * h * d == buf.sx * buf.sy * buf.sz) by (nonlinear_arith)
            requires
                (w == buf.sx && h == buf.sz && d == buf.sy) || (w == buf.sz && h == buf.sy && d == buf.sx)
                    || (w == buf.sx && h == buf.sy && d == buf.sz),
        ;
        assert(w * h <= w * h * d) by (nonlinear_arith)
            requires
                d >= 1,
        ;
    }
    let mut m: Vec<Option<FaceCode>> = Vec::new();
    let mut v: usize = 0;
    while v < h
        invariant
            buf.wf(),
            v <= h,
            w * h <= buf.sx * buf.sy * buf.sz,
            m@.len() == v * w,
            (w as nat, h as nat) == slice_dims(face, buf.sx as nat, buf.sy as nat, buf.sz as nat),
            target == face_mask(*buf, *face_info, face, layer as int),
            target.len() == w * h,
            forall|c: int| 0 <= c < m@.len() ==> m@[c] == #[trigger] target[c],
            forall|c: int| 0 <= c < m@.len() ==> {
                let (x, y, z) = slice_cell(face, layer as int, c % (w as int), c / (w as int));
                face_info.ensures((x as usize, y as usize, z as usize, face, buf.spec_local(x, y, z)), #[trigger] target[c])
            },
            forall|a: (usize, usize, usize, Face, Block)| face_info.requires(a),
            deterministic(*face_info),
            layer < (match face {
                Face::PosY | Face::NegY => buf.sy,
                Face::PosX | Face::NegX => buf.sx,
                Face::PosZ | Face::NegZ => buf.sz,
            }),
        decreases h - v,
    {
        let mut u: usize = 0;
        while u < w
            invariant
                buf.wf(),
                v < h,
                u <= w,
                w * h <= buf.sx * buf.sy * buf.sz,
                m@.len() == v * w + u,
                (w as nat, h as nat) == slice_dims(face, buf.sx as nat, buf.sy as nat, buf.sz as nat),
                target == face_mask(*buf, *face_info, face, layer as int),
                target.len() == w * h,
                forall|c: int| 0 <= c < m@.len() ==> m@[c] == #[trigger] target[c],
                forall|c: int| 0 <= c < m@.len() ==> {
                    let (x, y, z) = slice_cell(face, layer as int, c % (w as int), c / (w as int));
                    face_info.ensures((x as usize, y as usize, z as usize, face, buf.spec_local(x, y, z)), #[trigger] target[c])
                },
                forall|a: (usize, usize, usize, Face, Block)| face_info.requires(a),
                deterministic(*face_info),
                layer < (match face {
                    Face::PosY | Face::NegY => buf.sy,
                    Face::PosX | Face::NegX => buf.sx,
                    Face::PosZ | Face::NegZ => buf.sz,
                }),
            decreases w - u,
        {
            let (x, y, z): (usize, usize, usize) = match face {
                Face::PosY | Face::NegY => (u, layer, v),
                Face::PosX | Face::NegX => (layer, v, u),
                Face::PosZ | Face::NegZ => (u, v, layer),
            };
            let here = buf.get_local(x, y, z);
            let info = face_info(x, y, z, face, here);
            proof {
                let c = (v * w + u) as int;
                assert(c < w * h) by (nonlinear_arith)
                    requires
                        u < w,
                        v < h,
                        c == v * w + u,
                ;
                vstd::arithmetic::div_mod::lemma_fundamental_div_mod_converse(c, w as int, v as int, u as int);
                assert(target[c] == info_of(*face_info, x as int, y as int, z as int, face, buf.spec_local(x as int, y as int, z as int)));
                assert(face_info.ensures((x, y, z, face, here), info));
                assert(info == target[c]);
                assert(slice_cell(face, layer as int, c % (w as int), c / (w as int)) == (x as int, y as int, z as int));
            }
            m.push(info);
            u = u + 1;
        }
        proof {
            assert(v * w + w == (v + 1) * w) by (nonlinear_arith);
        }
        v = v + 1;
    }
    proof {
        assert(h * w == w * h) by (nonlinear_arith);
        assert(m@ =~= target);
    }
    m
}

/// Meshes a chunk greedily: for every slice, in `slice_order`, the greedy
/// rectangles of the faces `face_info` shows there.
pub fn build_mesh_core<F: Fn(usize, usize, usize, Face, Block) -> Option<FaceCode>>(buf: &ChunkBuf, face_info: F) -> (r: Vec<SliceRects>)
    requires
        buf.wf(),
        buf.sx * buf.sy <= usize::MAX,
        buf.sx * buf.sy * buf.sz <= usize::MAX,
        2 * buf.sx + 2 * buf.sy + 2 * buf.sz <= usize::MAX,
        forall|a: (usize, usize, usize, Face, Block)| face_info.requires(a),
        deterministic(face_info),
    ensures
        r@.len() == slice_order(buf.sx as nat, buf.sy as nat, buf.sz as nat).len(),
        forall|s: int| 0 <= s < r@.len() ==> {
            let (face, layer) = slice_order(buf.sx as nat, buf.sy as nat, buf.sz as nat)[s];
            let (w, h) = slice_dims(face, buf.sx as nat, buf.sy as nat, buf.sz as nat);
            &&& (#[trigger] r@[s]).face == face
            &&& r@[s].layer == layer
            &&& greedy_decomposition(w as int, h as int, face_mask(*buf, face_info, face, layer as int), r@[s].rects@)
            &&& mask_answered(*buf, face_info, face, layer as int)
        },
{
    let ghost order = slice_order(buf.sx as nat, buf.sy as nat, buf.sz as nat);
    let mut out: Vec<SliceRects> = Vec::new();
    let mut step: usize = 0;
    let total = 2 * buf.sy + 2 * buf.sx + 2 * buf.sz;
    while step < total
        invariant
            buf.wf(),
            buf.sx * buf.sy <= usize::MAX,
            buf.sx * buf.sy * buf.sz <= usize::MAX,
            total == 2 * buf.sy + 2 * buf.sx + 2 * buf.sz,
            order == slice_order(buf.sx as nat, buf.sy as nat, buf.sz as nat),
            order.len() == total,
            step <= total,
            out@.len() == step,
            forall|a: (usize, usize, usize, Face, Block)| face_info.requires(a),
            deterministic(face_info),
            forall|s: int| 0 <= s < out@.len() ==> {
                let (face, layer) = order[s];
                let (w, h) = slice_dims(face, buf.sx as nat, buf.sy as nat, buf.sz as nat);
                &&& (#[trigger] out@[s]).face == face
                &&& out@[s].layer == layer
                &&& greedy_decomposition(w as int, h as int, face_mask(*buf, face_info, face, layer as int), out@[s].rects@)
                &&& mask_answered(*buf, face_info, face, layer as int)
            },
        decreases total - step,
    {
        let sy2 = 2 * buf.sy;
        let (face, layer): (Face, usize) = if step < buf.sy {
            (Face::PosY, step)
        } else if step < sy2 {
            (Face::NegY, step - buf.sy)
        } else if step < sy2 + 2 * buf.sx {
            let i = step - sy2;
            (if i % 2 == 0 { Face::NegX } else { Face::PosX }, i / 2)
        } else {
            let i = step - sy2 - 2 * buf.sx;
            (if i % 2 == 0 { Face::NegZ } else { Face::PosZ }, i / 2)
        };
        proof {
            assert(order[step as int] == (face, layer as nat));
        }
        let mask = slice_mask(buf, &face_info, face, layer);
        let (w, h): (usize, usize) = match face {
            Face::PosY | Face::NegY => (buf.sx, buf.sz),
            Face::PosX | Face::NegX => (buf.sz, buf.sy),
            Face::PosZ | Face::NegZ => (buf.sx, buf.sy),
        };
        let rects = greedy_rects(w, h, &mask);
        out.push(SliceRects { face, layer, rects });
        step = step + 1;
    }
    out
}

/// A face's light with a visual floor, if one is given.
pub fn apply_min_light(l: u8, min: Option<u8>) -> (r: u8)
    ensures
        r == match min {
            Some(m) => if l >= m { l } else { m },
            None => l,
        },
{
    match min {
        Some(m) => if l >= m { l } else { m },
        None => l,
    }
}

} // verus!
