//! Persistent block edits, grouped by chunk, with change tracking that
//! tells which chunks need a rebuild.
use vstd::prelude::*;
use vstd::hash_map::HashMapWithView;
use crate::types::Block;
use crate::keys::{chunk_key, pack_chunk_key, lemma_chunk_key_inj, floor_div_mod};

verus! {

pub type WorldPos = (i32, i32, i32);

/// The block recorded for `p` in a list of edits.
pub open spec fn entry_for(v: Seq<(WorldPos, Block)>, p: WorldPos) -> Option<Block> {
    if exists|i: int| 0 <= i < v.len() && (#[trigger] v[i]).0 == p {
        Some(v[choose|i: int| 0 <= i < v.len() && (#[trigger] v[i]).0 == p].1)
    } else {
        None
    }
}

fn same_pos(a: WorldPos, b: WorldPos) -> (r: bool)
    ensures
        r == (a == b),
{
    a.0 == b.0 && a.1 == b.1 && a.2 == b.2
}

/// Position in `v` of the edit at `p`.
fn find_pos(v: &Vec<(WorldPos, Block)>, p: WorldPos) -> (r: Option<usize>)
    ensures
        match r {
            Some(i) => i < v@.len() && v@[i as int].0 == p,
            None => forall|j: int| 0 <= j < v@.len() ==> (#[trigger] v@[j]).0 != p,
        },
{
    let mut i: usize = 0;
    while i < v.len()
        invariant
            i <= v@.len(),
            forall|j: int| 0 <= j < i ==> (#[trigger] v@[j]).0 != p,
        decreases v@.len() - i,
    {
        if same_pos(v[i].0, p) {
            return Some(i);
        }
        i = i + 1;
    }
    None
}

/// No position occurs twice.
pub open spec fn positions_unique(v: Seq<(WorldPos, Block)>) -> bool {
    forall|i: int, j: int| 0 <= i < v.len() && 0 <= j < v.len() && i != j ==> (#[trigger] v[i]).0 != (#[trigger] v[j]).0
}

proof fn lemma_entry_at(v: Seq<(WorldPos, Block)>, i: int)
    requires
        positions_unique(v),
        0 <= i < v.len(),
    ensures
        entry_for(v, v[i].0) == Some(v[i].1),
{
    let j = choose|j: int| 0 <= j < v.len() && (#[trigger] v[j]).0 == v[i].0;
    assert(v[j].0 == v[i].0);
}

/// Chunks an edit at column `(wx, wz)` touches, given the chunk `(cx, cz)`
/// and local column `(lx, lz)` it falls in: its own chunk, each side
/// neighbor it borders, and each corner neighbor it borders.
pub open spec fn affected_list(cx: i32, cz: i32, lx: int, lz: int, sx: int, sz: int) -> Seq<(i32, i32)> {
    let s0 = seq![(cx, cz)];
    let s1 = if lx == 0 { s0.push(((cx - 1) as i32, cz)) } else { s0 };
    let s2 = if lx == sx - 1 { s1.push(((cx + 1) as i32, cz)) } else { s1 };
    let s3 = if lz == 0 { s2.push((cx, (cz - 1) as i32)) } else { s2 };
    let s4 = if lz == sz - 1 { s3.push((cx, (cz + 1) as i32)) } else { s3 };
    let s5 = if lx == 0 && lz == 0 { s4.push(((cx - 1) as i32, (cz - 1) as i32)) } else { s4 };
    let s6 = if lx == 0 && lz == sz - 1 { s5.push(((cx - 1) as i32, (cz + 1) as i32)) } else { s5 };
    let s7 = if lx == sx - 1 && lz == 0 { s6.push(((cx + 1) as i32, (cz - 1) as i32)) } else { s6 };
    if lx == sx - 1 && lz == sz - 1 { s7.push(((cx + 1) as i32, (cz + 1) as i32)) } else { s7 }
}

/// Edits, with change tracking, for a world made of `sx` by `sz` chunks.
pub struct EditStore {
    sx: i32,
    sz: i32,
    inner: HashMapWithView<u64, Vec<(WorldPos, Block)>>,
    rev: HashMapWithView<u64, u64>,
    built: HashMapWithView<u64, u64>,
    counter: u64,
}

impl EditStore {
    pub closed spec fn size_x(&self) -> i32 {
        self.sx
    }

    pub closed spec fn size_z(&self) -> i32 {
        self.sz
    }

    /// Chunk sizes are positive, so positions map to chunks.
    pub open spec fn sized(&self) -> bool {
        self.size_x() > 0 && self.size_z() > 0
    }

    /// The chunk holding column `(wx, wz)`.
    pub open spec fn chunk_of(&self, wx: i32, wz: i32) -> (i32, i32) {
        ((wx as int / self.size_x() as int) as i32, (wz as int / self.size_z() as int) as i32)
    }

    /// The block edited at `p`, if any.
    pub closed spec fn edit_at(&self, p: WorldPos) -> Option<Block> {
        let (cx, cz) = self.chunk_of(p.0, p.2);
        let k = chunk_key(cx, cz);
        if self.inner@.contains_key(k) {
            entry_for(self.inner@[k]@, p)
        } else {
            None
        }
    }

    /// Latest change stamp requested for a chunk (0 when none).
    pub closed spec fn rev_of(&self, cx: i32, cz: i32) -> u64 {
        if self.rev@.contains_key(chunk_key(cx, cz)) {
            self.rev@[chunk_key(cx, cz)]
        } else {
            0
        }
    }

    /// Latest stamp a chunk was built at (0 when none).
    pub closed spec fn built_of(&self, cx: i32, cz: i32) -> u64 {
        if self.built@.contains_key(chunk_key(cx, cz)) {
            self.built@[chunk_key(cx, cz)]
        } else {
            0
        }
    }

    /// The last stamp handed out (0 before any).
    pub closed spec fn counter(&self) -> u64 {
        self.counter
    }

    /// Each chunk's list holds the edits of that chunk, each position once.
    pub closed spec fn wf(&self) -> bool {
        &&& !self.sized() ==> self.inner@.dom().is_empty()
        &&& forall|cx: i32, cz: i32| #[trigger] self.inner@.contains_key(chunk_key(cx, cz)) ==> {
            let v = self.inner@[chunk_key(cx, cz)]@;
            &&& positions_unique(v)
            &&& forall|i: int| 0 <= i < v.len() ==> self.chunk_of((#[trigger] v[i]).0.0, v[i].0.2) == (cx, cz)
        }
        &&& forall|k: u64| #[trigger] self.inner@.contains_key(k) ==> exists|cx: i32, cz: i32| chunk_key(cx, cz) == k
    }

    /// The local column of `(wx, wz)` within its chunk.
    pub open spec fn local_of(&self, wx: i32, wz: i32) -> (int, int) {
        (wx as int % self.size_x() as int, wz as int % self.size_z() as int)
    }

    /// The chunk arithmetic for column `(wx, wz)` stays within `i32`: the
    /// chunk origin, and each neighbor the column borders.
    pub open spec fn column_in_range(&self, wx: i32, wz: i32) -> bool {
        let (cx, cz) = self.chunk_of(wx, wz);
        let (lx, lz) = self.local_of(wx, wz);
        &&& cx * self.size_x() >= i32::MIN
        &&& cz * self.size_z() >= i32::MIN
        &&& lx == 0 ==> cx > i32::MIN
        &&& lx == self.size_x() - 1 ==> cx < i32::MAX
        &&& lz == 0 ==> cz > i32::MIN
        &&& lz == self.size_z() - 1 ==> cz < i32::MAX
    }

    /// The chunks an edit at column `(wx, wz)` touches.
    pub open spec fn affected(&self, wx: i32, wz: i32) -> Seq<(i32, i32)> {
        let (cx, cz) = self.chunk_of(wx, wz);
        let (lx, lz) = self.local_of(wx, wz);
        affected_list(cx, cz, lx, lz, self.size_x() as int, self.size_z() as int)
    }

    /// An empty store for chunks of `sx` by `sz` columns.
    pub fn new(sx: i32, _sy: i32, sz: i32) -> (s: EditStore)
        ensures
            s.wf(),
            s.size_x() == sx && s.size_z() == sz,
            s.counter() == 0,
            forall|p: WorldPos| #[trigger] s.edit_at(p) is None,
            forall|cx: i32, cz: i32| #[trigger] s.rev_of(cx, cz) == 0 && s.built_of(cx, cz) == 0,
    {
        broadcast use vstd::std_specs::hash::group_hash_axioms;
        let s = EditStore {
            sx,
            sz,
            inner: HashMapWithView::new(),
            rev: HashMapWithView::new(),
            built: HashMapWithView::new(),
            counter: 0,
        };
        assert(s.inner@.dom() =~= Set::<u64>::empty());
        s
    }

    fn chunk_key(&self, wx: i32, wz: i32) -> (r: (i32, i32))
        requires
            self.sized(),
        ensures
            r == self.chunk_of(wx, wz),
    {
        let (cx, _) = floor_div_mod(wx, self.sx);
        let (cz, _) = floor_div_mod(wz, self.sz);
        (cx, cz)
    }

    /// The block edited at `(wx, wy, wz)`, if any.
    pub fn get(&self, wx: i32, wy: i32, wz: i32) -> (r: Option<Block>)
        requires
            self.wf(),
            self.sized(),
        ensures
            r == self.edit_at((wx, wy, wz)),
    {
        let (cx, cz) = self.chunk_key(wx, wz);
        let k = pack_chunk_key(cx, cz);
        match self.inner.get(&k) {
            Some(v) => {
                proof {
                    assert(self.inner@.contains_key(chunk_key(cx, cz)));
                }
                match find_pos(v, (wx, wy, wz)) {
                    Some(i) => {
                        proof {
                            lemma_entry_at(v@, i as int);
                        }
                        Some(v[i].1)
                    },
                    None => None,
                }
            },
            None => None,
        }
    }

    /// Records block `b` at `(wx, wy, wz)`, replacing an earlier edit there.
    pub fn set(&mut self, wx: i32, wy: i32, wz: i32, b: Block)
        requires
            old(self).wf(),
            old(self).sized(),
        ensures
            final(self).wf(),
            final(self).size_x() == old(self).size_x() && final(self).size_z() == old(self).size_z(),
            final(self).counter() == old(self).counter(),
            forall|p: WorldPos| #[trigger] final(self).edit_at(p) == if p == (wx, wy, wz) { Some(b) } else { old(self).edit_at(p) },
            forall|cx: i32, cz: i32| #[trigger] final(self).rev_of(cx, cz) == old(self).rev_of(cx, cz)
                && final(self).built_of(cx, cz) == old(self).built_of(cx, cz),
    {
        broadcast use vstd::std_specs::hash::group_hash_axioms;
        let (cx, cz) = self.chunk_key(wx, wz);
        let k = pack_chunk_key(cx, cz);
        let p: WorldPos = (wx, wy, wz);
        let mut v = match self.inner.remove(&k) {
            Some(v) => v,
            None => Vec::new(),
        };
        let ghost v0 = v@;
        proof {
            if old(self).inner@.contains_key(k) {
                assert(old(self).inner@.contains_key(chunk_key(cx, cz)));
            }
        }
        let pos = find_pos(&v, p);
        let found = pos.is_some();
        let i: usize = match pos {
            Some(i) => i,
            None => v.len(),
        };
        if found {
            v.set(i, (p, b));
        } else {
            v.push((p, b));
        }
        self.inner.insert(k, v);
        proof {
            let nv = self.inner@[k]@;
            assert(positions_unique(nv)) by {
                assert forall|a: int, c: int| 0 <= a < nv.len() && 0 <= c < nv.len() && a != c implies (#[trigger] nv[a]).0 != (#[trigger] nv[c]).0 by {
                    if found {
                        assert(nv[a].0 == v0[a].0 && nv[c].0 == v0[c].0);
                    } else {
                        if a < v0.len() && c < v0.len() {
                            assert(nv[a] == v0[a] && nv[c] == v0[c]);
                        }
                    }
                }
            }
            assert forall|x: i32, z: i32| #[trigger] self.inner@.contains_key(chunk_key(x, z)) implies {
                let w = self.inner@[chunk_key(x, z)]@;
                &&& positions_unique(w)
                &&& forall|j: int| 0 <= j < w.len() ==> self.chunk_of((#[trigger] w[j]).0.0, w[j].0.2) == (x, z)
            } by {
                lemma_chunk_key_inj(x, z, cx, cz);
                if (x, z) == (cx, cz) {
                    assert forall|j: int| 0 <= j < nv.len() implies self.chunk_of((#[trigger] nv[j]).0.0, nv[j].0.2) == (x, z) by {
                        if j < v0.len() && !(found && j == i) {
                            assert(nv[j] == v0[j]);
                            assert(old(self).inner@.contains_key(chunk_key(cx, cz)));
                        }
                    }
                }
            }
            assert forall|kk: u64| #[trigger] self.inner@.contains_key(kk) implies exists|x: i32, z: i32| chunk_key(x, z) == kk by {
                if kk != k {
                    assert(old(self).inner@.contains_key(kk));
                }
            }
            assert forall|q: WorldPos| #[trigger] self.edit_at(q) == if q == p { Some(b) } else { old(self).edit_at(q) } by {
                let (qx, qz) = self.chunk_of(q.0, q.2);
                lemma_chunk_key_inj(qx, qz, cx, cz);
                if (qx, qz) == (cx, cz) {
                    if q == p {
                        let j = if found { i as int } else { v0.len() as int };
                        lemma_entry_at(nv, j);
                    } else {
                        if exists|j: int| 0 <= j < nv.len() && (#[trigger] nv[j]).0 == q {
                            let j = choose|j: int| 0 <= j < nv.len() && (#[trigger] nv[j]).0 == q;
                            lemma_entry_at(nv, j);
                            assert(nv[j] == v0[j]);
                            assert(old(self).inner@.contains_key(chunk_key(cx, cz)));
                            lemma_entry_at(v0, j);
                        } else {
                            if old(self).inner@.contains_key(k) {
                                if exists|j: int| 0 <= j < v0.len() && (#[trigger] v0[j]).0 == q {
                                    let j = choose|j: int| 0 <= j < v0.len() && (#[trigger] v0[j]).0 == q;
                                    assert(nv[j].0 == q);
                                }
                            }
                        }
                    }
                }
            }
        }
    }

    fn copy_entries(v: &Vec<(WorldPos, Block)>, out: &mut Vec<(WorldPos, Block)>)
        ensures
            final(out)@ == old(out)@ + v@,
    {
        let mut i: usize = 0;
        let ghost o0 = out@;
        while i < v.len()
            invariant
                i <= v@.len(),
                out@ == o0 + v@.subrange(0, i as int),
            decreases v@.len() - i,
        {
            out.push(v[i]);
            i = i + 1;
            assert(out@ =~= o0 + v@.subrange(0, i as int));
        }
        assert(v@.subrange(0, i as int) =~= v@);
    }

    /// The edits of chunk `(cx, cz)` in the order the store keeps them.
    pub closed spec fn chunk_part(&self, cx: i32, cz: i32) -> Seq<(WorldPos, Block)> {
        if self.inner@.contains_key(chunk_key(cx, cz)) {
            self.inner@[chunk_key(cx, cz)]@
        } else {
            Seq::empty()
        }
    }

    /// The parts of the first `n` chunks of row `kz`, from column `cx - r` on.
    pub open spec fn row_parts(&self, cx: int, kz: int, r: int, n: nat) -> Seq<(WorldPos, Block)>
        decreases n,
    {
        if n == 0 {
            Seq::empty()
        } else {
            self.row_parts(cx, kz, r, (n - 1) as nat) + self.chunk_part((cx - r + n - 1) as i32, kz as i32)
        }
    }

    /// The parts of the first `m` rows of the square of radius `r` around
    /// `(cx, cz)`, row by row from `cz - r` on, each row from `cx - r` to `cx + r`.
    pub open spec fn region_parts(&self, cx: int, cz: int, r: int, m: nat) -> Seq<(WorldPos, Block)>
        decreases m,
    {
        if m == 0 {
            Seq::empty()
        } else {
            self.region_parts(cx, cz, r, (m - 1) as nat) + self.row_parts(cx, cz - r + m - 1, r, (2 * r + 1) as nat)
        }
    }

    /// All edits of chunk `(cx, cz)`, each position once.
    pub fn snapshot_for_chunk(&self, cx: i32, cz: i32) -> (r: Vec<(WorldPos, Block)>)
        requires
            self.wf(),
        ensures
            positions_unique(r@),
            forall|i: int| 0 <= i < r@.len() ==> self.chunk_of((#[trigger] r@[i]).0.0, r@[i].0.2) == (cx, cz)
                && self.edit_at(r@[i].0) == Some(r@[i].1),
            forall|p: WorldPos| self.chunk_of(p.0, p.2) == (cx, cz) && #[trigger] self.edit_at(p) is Some
                ==> exists|i: int| 0 <= i < r@.len() && (#[trigger] r@[i]).0 == p,
            r@ == self.chunk_part(cx, cz),
    {
        let k = pack_chunk_key(cx, cz);
        let mut out: Vec<(WorldPos, Block)> = Vec::new();
        match self.inner.get(&k) {
            Some(v) => {
                Self::copy_entries(v, &mut out);
                proof {
                    assert(out@ =~= v@);
                    assert(self.inner@.contains_key(chunk_key(cx, cz)));
                    assert forall|i: int| 0 <= i < out@.len() implies self.chunk_of((#[trigger] out@[i]).0.0, out@[i].0.2) == (cx, cz)
                        && self.edit_at(out@[i].0) == Some(out@[i].1) by {
                        lemma_entry_at(v@, i);
                    }
                    assert forall|p: WorldPos| self.chunk_of(p.0, p.2) == (cx, cz) && #[trigger] self.edit_at(p) is Some
                        implies exists|i: int| 0 <= i < out@.len() && (#[trigger] out@[i]).0 == p by {
                        lemma_chunk_key_inj(cx, cz, cx, cz);
                    }
                }
            },
            None => {
                proof {
                    assert forall|p: WorldPos| self.chunk_of(p.0, p.2) == (cx, cz) && #[trigger] self.edit_at(p) is Some
                        implies exists|i: int| 0 <= i < out@.len() && (#[trigger] out@[i]).0 == p by {
                    }
                    assert(out@ =~= self.chunk_part(cx, cz));
                }
            },
        }
        out
    }

    /// Chunk `c` lies in the square of chunks within `radius` of `(cx, cz)`.
    pub open spec fn in_square(c: (i32, i32), cx: i32, cz: i32, radius: i32) -> bool {
        cx - radius <= c.0 <= cx + radius && cz - radius <= c.1 <= cz + radius
    }

    /// All edits of the chunks within `radius` (in chunk units) of `(cx, cz)`,
    /// each position once.
    pub fn snapshot_for_region(&self, cx: i32, cz: i32, radius: i32) -> (r: Vec<(WorldPos, Block)>)
        requires
            self.wf(),
            radius > i32::MIN,
            radius >= 0 ==> i32::MIN <= cx - radius && cx + radius <= i32::MAX && i32::MIN <= cz - radius && cz + radius <= i32::MAX,
        ensures
            positions_unique(r@),
            forall|i: int| 0 <= i < r@.len() ==> Self::in_square(self.chunk_of((#[trigger] r@[i]).0.0, r@[i].0.2), cx, cz, radius)
                && self.edit_at(r@[i].0) == Some(r@[i].1),
            forall|p: WorldPos| Self::in_square(self.chunk_of(p.0, p.2), cx, cz, radius) && #[trigger] self.edit_at(p) is Some
                ==> exists|i: int| 0 <= i < r@.len() && (#[trigger] r@[i]).0 == p,
            radius < 0 ==> r@.len() == 0,
            radius >= 0 ==> r@ == self.region_parts(cx as int, cz as int, radius as int, (2 * radius + 1) as nat),
    {
        let mut out: Vec<(WorldPos, Block)> = Vec::new();
        if radius < 0 {
            return out;
        }
        let r = radius as i64;
        let mut dz: i64 = -r;
        while dz <= r
            invariant
                self.wf(),
                r == radius as i64,
                0 <= r,
                i32::MIN <= cx - radius && cx + radius <= i32::MAX && i32::MIN <= cz - radius && cz + radius <= i32::MAX,
                -r <= dz <= r + 1,
                out@ == self.region_parts(cx as int, cz as int, r as int, (dz + r) as nat),
                positions_unique(out@),
                forall|i: int| 0 <= i < out@.len() ==> Self::in_square(self.chunk_of((#[trigger] out@[i]).0.0, out@[i].0.2), cx, cz, radius)
                    && self.chunk_of(out@[i].0.0, out@[i].0.2).1 < cz + dz
                    && self.edit_at(out@[i].0) == Some(out@[i].1),
                forall|p: WorldPos| Self::in_square(self.chunk_of(p.0, p.2), cx, cz, radius) && self.chunk_of(p.0, p.2).1 < cz + dz
                    && #[trigger] self.edit_at(p) is Some ==> exists|i: int| 0 <= i < out@.len() && (#[trigger] out@[i]).0 == p,
            decreases r + 1 - dz,
        {
            let mut dx: i64 = -r;
            proof {
                assert(out@ =~= self.region_parts(cx as int, cz as int, r as int, (dz + r) as nat)
                    + self.row_parts(cx as int, cz + dz, r as int, 0));
            }
            while dx <= r
                invariant
                    self.wf(),
                    r == radius as i64,
                    0 <= r,
                    i32::MIN <= cx - radius && cx + radius <= i32::MAX && i32::MIN <= cz - radius && cz + radius <= i32::MAX,
                    -r <= dz <= r,
                    -r <= dx <= r + 1,
                    out@ == self.region_parts(cx as int, cz as int, r as int, (dz + r) as nat)
                        + self.row_parts(cx as int, cz + dz, r as int, (dx + r) as nat),
                    positions_unique(out@),
                    forall|i: int| 0 <= i < out@.len() ==> Self::in_square(self.chunk_of((#[trigger] out@[i]).0.0, out@[i].0.2), cx, cz, radius)
                        && (self.chunk_of(out@[i].0.0, out@[i].0.2).1 < cz + dz
                            || (self.chunk_of(out@[i].0.0, out@[i].0.2).1 == cz + dz && self.chunk_of(out@[i].0.0, out@[i].0.2).0 < cx + dx))
                        && self.edit_at(out@[i].0) == Some(out@[i].1),
                    forall|p: WorldPos| Self::in_square(self.chunk_of(p.0, p.2), cx, cz, radius)
                        && (self.chunk_of(p.0, p.2).1 < cz + dz || (self.chunk_of(p.0, p.2).1 == cz + dz && self.chunk_of(p.0, p.2).0 < cx + dx))
                        && #[trigger] self.edit_at(p) is Some ==> exists|i: int| 0 <= i < out@.len() && (#[trigger] out@[i]).0 == p,
                decreases r + 1 - dx,
            {
                let kx = (cx as i64 + dx) as i32;
                let kz = (cz as i64 + dz) as i32;
                let part = self.snapshot_for_chunk(kx, kz);
                let ghost o0 = out@;
                Self::copy_entries(&part, &mut out);
                proof {
                    let rg = self.region_parts(cx as int, cz as int, r as int, (dz + r) as nat);
                    let rw = self.row_parts(cx as int, cz + dz, r as int, (dx + r) as nat);
                    assert(self.row_parts(cx as int, cz + dz, r as int, (dx + r + 1) as nat) == rw + part@);
                    assert(out@ =~= rg + (rw + part@));
                    assert forall|a: int, c: int| 0 <= a < out@.len() && 0 <= c < out@.len() && a != c implies (#[trigger] out@[a]).0 != (#[trigger] out@[c]).0 by {
                        if a < o0.len() && c >= o0.len() {
                            assert(out@[c] == part@[c - o0.len()]);
                        } else if a >= o0.len() && c < o0.len() {
                            assert(out@[a] == part@[a - o0.len()]);
                        } else if a >= o0.len() && c >= o0.len() {
                            assert(out@[a] == part@[a - o0.len()] && out@[c] == part@[c - o0.len()]);
                        }
                    }
                    assert forall|i: int| 0 <= i < out@.len() implies Self::in_square(self.chunk_of((#[trigger] out@[i]).0.0, out@[i].0.2), cx, cz, radius)
                        && (self.chunk_of(out@[i].0.0, out@[i].0.2).1 < cz + dz
                            || (self.chunk_of(out@[i].0.0, out@[i].0.2).1 == cz + dz && self.chunk_of(out@[i].0.0, out@[i].0.2).0 < cx + dx + 1))
                        && self.edit_at(out@[i].0) == Some(out@[i].1) by {
                        if i >= o0.len() {
                            assert(out@[i] == part@[i - o0.len()]);
                        }
                    }
                    assert forall|p: WorldPos| Self::in_square(self.chunk_of(p.0, p.2), cx, cz, radius)
                        && (self.chunk_of(p.0, p.2).1 < cz + dz || (self.chunk_of(p.0, p.2).1 == cz + dz && self.chunk_of(p.0, p.2).0 < cx + dx + 1))
                        && #[trigger] self.edit_at(p) is Some implies exists|i: int| 0 <= i < out@.len() && (#[trigger] out@[i]).0 == p by {
                        if self.chunk_of(p.0, p.2) == (kx, kz) {
                            let j = choose|j: int| 0 <= j < part@.len() && (#[trigger] part@[j]).0 == p;
                            assert(out@[o0.len() + j] == part@[j]);
                        } else {
                            let j = choose|j: int| 0 <= j < o0.len() && (#[trigger] o0[j]).0 == p;
                            assert(out@[j] == o0[j]);
                        }
                    }
                }
                dx = dx + 1;
            }
            proof {
                assert(self.region_parts(cx as int, cz as int, r as int, (dz + r + 1) as nat)
                    == self.region_parts(cx as int, cz as int, r as int, (dz + r) as nat)
                        + self.row_parts(cx as int, cz + dz, r as int, (2 * r + 1) as nat));
            }
            dz = dz + 1;
        }
        out
    }

    /// Chunks an edit at column `(wx, wz)` touches: its own chunk, then the
    /// side neighbors and corner neighbors of the chunk edges it lies on.
    pub fn get_affected_chunks(&self, wx: i32, wz: i32) -> (r: Vec<(i32, i32)>)
        requires
            self.sized(),
            self.column_in_range(wx, wz),
        ensures
            r@ == self.affected(wx, wz),
    {
        let (cx, lx) = floor_div_mod(wx, self.sx);
        let (cz, lz) = floor_div_mod(wz, self.sz);
        let mut affected: Vec<(i32, i32)> = Vec::new();
        affected.push((cx, cz));
        if lx == 0 {
            affected.push((cx - 1, cz));
        }
        if lx == self.sx - 1 {
            affected.push((cx + 1, cz));
        }
        if lz == 0 {
            affected.push((cx, cz - 1));
        }
        if lz == self.sz - 1 {
            affected.push((cx, cz + 1));
        }
        if lx == 0 && lz == 0 {
            affected.push((cx - 1, cz - 1));
        }
        if lx == 0 && lz == self.sz - 1 {
            affected.push((cx - 1, cz + 1));
        }
        if lx == self.sx - 1 && lz == 0 {
            affected.push((cx + 1, cz - 1));
        }
        if lx == self.sx - 1 && lz == self.sz - 1 {
            affected.push((cx + 1, cz + 1));
        }
        assert(affected@ =~= self.affected(wx, wz));
        affected
    }

    /// Hands out the next change stamp (wrapping past `u64::MAX` to 1) and
    /// records it for every chunk an edit at column `(wx, wz)` touches.
    pub fn bump_region_around(&mut self, wx: i32, wz: i32) -> (stamp: u64)
        requires
            old(self).wf(),
            old(self).sized(),
            old(self).column_in_range(wx, wz),
        ensures
            final(self).wf(),
            final(self).size_x() == old(self).size_x() && final(self).size_z() == old(self).size_z(),
            stamp == (if old(self).counter() == u64::MAX { 1 } else { (old(self).counter() + 1) as u64 }),
            final(self).counter() == stamp,
            forall|p: WorldPos| #[trigger] final(self).edit_at(p) == old(self).edit_at(p),
            forall|cx: i32, cz: i32| #[trigger] final(self).rev_of(cx, cz) == if old(self).affected(wx, wz).contains((cx, cz)) {
                stamp
            } else {
                old(self).rev_of(cx, cz)
            },
            forall|cx: i32, cz: i32| #[trigger] final(self).built_of(cx, cz) == old(self).built_of(cx, cz),
            forall|cx: i32, cz: i32| old(self).affected(wx, wz).contains((cx, cz)) && old(self).built_of(cx, cz) < stamp
                ==> #[trigger] final(self).rev_of(cx, cz) > final(self).built_of(cx, cz),
    {
        broadcast use vstd::std_specs::hash::group_hash_axioms;
        let next = self.counter.wrapping_add(1);
        self.counter = if next == 0 { 1 } else { next };
        let stamp = self.counter;
        let affected = self.get_affected_chunks(wx, wz);
        let mut i: usize = 0;
        while i < affected.len()
            invariant
                old(self).wf(),
                self.wf(),
                self.sx == old(self).sx && self.sz == old(self).sz,
                self.inner@ == old(self).inner@,
                self.built@ == old(self).built@,
                self.counter == stamp,
                i <= affected@.len(),
                affected@ == old(self).affected(wx, wz),
                forall|cx: i32, cz: i32| #[trigger] self.rev_of(cx, cz) == if affected@.subrange(0, i as int).contains((cx, cz)) {
                    stamp
                } else {
                    old(self).rev_of(cx, cz)
                },
            decreases affected@.len() - i,
        {
            let (ax, az) = affected[i];
            let k = pack_chunk_key(ax, az);
            let ghost s0 = *self;
            self.rev.insert(k, stamp);
            proof {
                assert forall|cx: i32, cz: i32| #[trigger] self.rev_of(cx, cz) == if affected@.subrange(0, i as int + 1).contains((cx, cz)) {
                    stamp
                } else {
                    old(self).rev_of(cx, cz)
                } by {
                    lemma_chunk_key_inj(cx, cz, ax, az);
                    assert(s0.rev_of(cx, cz) == if affected@.subrange(0, i as int).contains((cx, cz)) {
                        stamp
                    } else {
                        old(self).rev_of(cx, cz)
                    });
                    let s1 = affected@.subrange(0, i as int + 1);
                    assert(s1 =~= affected@.subrange(0, i as int).push((ax, az)));
                    if affected@.subrange(0, i as int).contains((cx, cz)) {
                        let j = choose|j: int| 0 <= j < i && affected@.subrange(0, i as int)[j] == (cx, cz);
                        assert(s1[j] == (cx, cz));
                    }
                    if (cx, cz) == (ax, az) {
                        assert(s1[i as int] == (cx, cz));
                    }
                }
            }
            i = i + 1;
        }
        assert(affected@.subrange(0, i as int) =~= affected@);
        stamp
    }

    /// Latest change stamp requested for chunk `(cx, cz)`, 0 if none.
    pub fn get_rev(&self, cx: i32, cz: i32) -> (r: u64)
        ensures
            r == self.rev_of(cx, cz),
    {
        let k = pack_chunk_key(cx, cz);
        match self.rev.get(&k) {
            Some(r) => *r,
            None => 0,
        }
    }

    /// Latest stamp chunk `(cx, cz)` was built at, 0 if none.
    pub fn get_built_rev(&self, cx: i32, cz: i32) -> (r: u64)
        ensures
            r == self.built_of(cx, cz),
    {
        let k = pack_chunk_key(cx, cz);
        match self.built.get(&k) {
            Some(r) => *r,
            None => 0,
        }
    }

    /// Records that chunk `(cx, cz)` was built at stamp `rev`; an older
    /// stamp than the one recorded is ignored.
    pub fn mark_built(&mut self, cx: i32, cz: i32, rev: u64)
        requires
            old(self).wf(),
        ensures
            final(self).wf(),
            final(self).size_x() == old(self).size_x() && final(self).size_z() == old(self).size_z(),
            final(self).counter() == old(self).counter(),
            final(self).built_of(cx, cz) == if rev > old(self).built_of(cx, cz) { rev } else { old(self).built_of(cx, cz) },
            forall|a: i32, b: i32| (a, b) != (cx, cz) ==> #[trigger] final(self).built_of(a, b) == old(self).built_of(a, b),
            forall|a: i32, b: i32| #[trigger] final(self).rev_of(a, b) == old(self).rev_of(a, b),
            rev >= old(self).rev_of(cx, cz) ==> final(self).rev_of(cx, cz) <= final(self).built_of(cx, cz),
            forall|p: WorldPos| #[trigger] final(self).edit_at(p) == old(self).edit_at(p),
    {
        broadcast use vstd::std_specs::hash::group_hash_axioms;
        let k = pack_chunk_key(cx, cz);
        let cur = match self.built.get(&k) {
            Some(r) => *r,
            None => 0,
        };
        let v = if rev > cur { rev } else { cur };
        self.built.insert(k, v);
        proof {
            assert forall|a: i32, b: i32| (a, b) != (cx, cz) implies #[trigger] self.built_of(a, b) == old(self).built_of(a, b) by {
                lemma_chunk_key_inj(a, b, cx, cz);
            }
        }
    }

    /// Whether chunk `(cx, cz)` has a change newer than its last build.
    pub fn needs_rebuild(&self, cx: i32, cz: i32) -> (r: bool)
        ensures
            r == (self.rev_of(cx, cz) > self.built_of(cx, cz)),
    {
        let current_rev = self.get_rev(cx, cz);
        let built_rev = self.get_built_rev(cx, cz);
        current_rev > built_rev
    }
}


/// The chunk (in `sx` by `sz` columns) holding the column `(wx + a, wz + b)`.
pub open spec fn neighbor_column_chunk(sx: int, sz: int, wx: int, wz: int, a: int, b: int) -> (int, int) {
    ((wx + a) / sx, (wz + b) / sz)
}

/// A conditional push keeps what the sequence held.
proof fn lemma_maybe_push_keeps(s: Seq<(i32, i32)>, c: bool, x: (i32, i32), e: (i32, i32))
    requires
        s.contains(e),
    ensures
        (if c { s.push(x) } else { s }).contains(e),
{
    let i = choose|i: int| 0 <= i < s.len() && s[i] == e;
    if c {
        assert(s.push(x)[i] == e);
    }
}

/// Stepping one column left or right moves to the neighbor chunk exactly
/// when the column sits on that chunk edge.
proof fn lemma_step_chunk(x: int, d: int, a: int)
    requires
        d > 0,
        -1 <= a <= 1,
    ensures
        (x + a) / d == x / d + (if a == -1 && x % d == 0 { -1int } else if a == 1 && x % d == d - 1 { 1int } else { 0int }),
{
    let q = x / d;
    let r = x % d;
    vstd::arithmetic::div_mod::lemma_fundamental_div_mod(x, d);
    vstd::arithmetic::div_mod::lemma_mod_bound(x, d);
    if a == -1 && r == 0 {
        assert(x + a == (q - 1) * d + (d - 1)) by (nonlinear_arith) requires x == d * q + r, r == 0, a == -1;
        vstd::arithmetic::div_mod::lemma_fundamental_div_mod_converse(x + a, d, q - 1, d - 1);
    } else if a == 1 && r == d - 1 {
        assert(x + a == (q + 1) * d + 0) by (nonlinear_arith) requires x == d * q + r, r == d - 1, a == 1;
        vstd::arithmetic::div_mod::lemma_fundamental_div_mod_converse(x + a, d, q + 1, 0);
    } else {
        assert(x + a == q * d + (r + a)) by (nonlinear_arith) requires x == d * q + r;
        vstd::arithmetic::div_mod::lemma_fundamental_div_mod_converse(x + a, d, q, r + a);
    }
}

/// An edit at column `(wx, wz)` lists a chunk exactly when that chunk holds
/// one of the nine columns `(wx + a, wz + b)`, `a` and `b` in `-1..=1`: its
/// own chunk, every side neighbor it borders and every corner neighbor
/// whose corner it sits on.
pub proof fn lemma_affected_chunks_are_neighbor_columns(s: EditStore, wx: i32, wz: i32)
    requires
        s.sized(),
        s.column_in_range(wx, wz),
    ensures
        forall|p: i32, q: i32| s.affected(wx, wz).contains((p, q)) <==> exists|a: int, b: int|
            -1 <= a <= 1 && -1 <= b <= 1
            && #[trigger] neighbor_column_chunk(s.size_x() as int, s.size_z() as int, wx as int, wz as int, a, b) == (p as int, q as int),
{
    let sx = s.size_x() as int;
    let sz = s.size_z() as int;
    let (cx, cz) = s.chunk_of(wx, wz);
    let (lx, lz) = s.local_of(wx, wz);
    let l = s.affected(wx, wz);
    vstd::arithmetic::div_mod::lemma_fundamental_div_mod(wx as int, sx);
    vstd::arithmetic::div_mod::lemma_fundamental_div_mod(wz as int, sz);
    vstd::arithmetic::div_mod::lemma_mod_bound(wx as int, sx);
    vstd::arithmetic::div_mod::lemma_mod_bound(wz as int, sz);
    let qx = wx as int / sx;
    let qz = wz as int / sz;
    assert(i32::MIN <= qx <= i32::MAX) by (nonlinear_arith)
        requires
            wx as int == sx * qx + wx as int % sx,
            0 <= wx as int % sx < sx,
            sx >= 1,
            i32::MIN <= wx <= i32::MAX,
    ;
    assert(i32::MIN <= qz <= i32::MAX) by (nonlinear_arith)
        requires
            wz as int == sz * qz + wz as int % sz,
            0 <= wz as int % sz < sz,
            sz >= 1,
            i32::MIN <= wz <= i32::MAX,
    ;
    assert(cx as int == qx && cz as int == qz);
    assert forall|a: int, b: int| -1 <= a <= 1 && -1 <= b <= 1 implies
        #[trigger] neighbor_column_chunk(sx, sz, wx as int, wz as int, a, b) == (
            cx as int + (if a == -1 && lx == 0 { -1int } else if a == 1 && lx == sx - 1 { 1int } else { 0int }),
            cz as int + (if b == -1 && lz == 0 { -1int } else if b == 1 && lz == sz - 1 { 1int } else { 0int })) by {
        lemma_step_chunk(wx as int, sx, a);
        lemma_step_chunk(wz as int, sz, b);
    }
    // every listed chunk holds one of the nine columns
    assert forall|i: int| #![trigger l[i]] 0 <= i < l.len() implies exists|a: int, b: int|
        -1 <= a <= 1 && -1 <= b <= 1
        && #[trigger] neighbor_column_chunk(sx, sz, wx as int, wz as int, a, b) == (l[i].0 as int, l[i].1 as int) by {
        let w = if l[i] == (cx, cz) { (0int, 0int) }
            else if l[i] == ((cx - 1) as i32, cz) && lx == 0 { (-1int, 0int) }
            else if l[i] == ((cx + 1) as i32, cz) && lx == sx - 1 { (1int, 0int) }
            else if l[i] == (cx, (cz - 1) as i32) && lz == 0 { (0int, -1int) }
            else if l[i] == (cx, (cz + 1) as i32) && lz == sz - 1 { (0int, 1int) }
            else if l[i] == ((cx - 1) as i32, (cz - 1) as i32) && lx == 0 && lz == 0 { (-1int, -1int) }
            else if l[i] == ((cx - 1) as i32, (cz + 1) as i32) && lx == 0 && lz == sz - 1 { (-1int, 1int) }
            else if l[i] == ((cx + 1) as i32, (cz - 1) as i32) && lx == sx - 1 && lz == 0 { (1int, -1int) }
            else { (1int, 1int) };
        assert(neighbor_column_chunk(sx, sz, wx as int, wz as int, w.0, w.1) == (l[i].0 as int, l[i].1 as int));
    }
    // every one of the nine columns' chunks is listed
    assert forall|a: int, b: int| -1 <= a <= 1 && -1 <= b <= 1 implies
        l.contains(((#[trigger] neighbor_column_chunk(sx, sz, wx as int, wz as int, a, b)).0 as i32, neighbor_column_chunk(sx, sz, wx as int, wz as int, a, b).1 as i32)) by {
        let c = neighbor_column_chunk(sx, sz, wx as int, wz as int, a, b);
        let e = (c.0 as i32, c.1 as i32);
        assert(l[0] == (cx, cz));
        if e != (cx, cz) {
            let t0 = seq![(cx, cz)];
            let t1 = if lx == 0 { t0.push(((cx - 1) as i32, cz)) } else { t0 };
            let t2 = if lx == sx - 1 { t1.push(((cx + 1) as i32, cz)) } else { t1 };
            let t3 = if lz == 0 { t2.push((cx, (cz - 1) as i32)) } else { t2 };
            let t4 = if lz == sz - 1 { t3.push((cx, (cz + 1) as i32)) } else { t3 };
            let t5 = if lx == 0 && lz == 0 { t4.push(((cx - 1) as i32, (cz - 1) as i32)) } else { t4 };
            let t6 = if lx == 0 && lz == sz - 1 { t5.push(((cx - 1) as i32, (cz + 1) as i32)) } else { t5 };
            let t7 = if lx == sx - 1 && lz == 0 { t6.push(((cx + 1) as i32, (cz - 1) as i32)) } else { t6 };
            let t8 = if lx == sx - 1 && lz == sz - 1 { t7.push(((cx + 1) as i32, (cz + 1) as i32)) } else { t7 };
            assert(l == t8);
            let k: int = if a == -1 && lx == 0 && b == -1 && lz == 0 { 5 }
                else if a == -1 && lx == 0 && b == 1 && lz == sz - 1 { 6 }
                else if a == 1 && lx == sx - 1 && b == -1 && lz == 0 { 7 }
                else if a == 1 && lx == sx - 1 && b == 1 && lz == sz - 1 { 8 }
                else if a == -1 && lx == 0 { 1 }
                else if a == 1 && lx == sx - 1 { 2 }
                else if b == -1 && lz == 0 { 3 }
                else { 4 };
            if k == 1 { assert(t1.last() == e); assert(t1.contains(e)); }
            if k <= 1 { lemma_maybe_push_keeps(t1, lx == sx - 1, ((cx + 1) as i32, cz), e); }
            if k == 2 { assert(t2.last() == e); assert(t2.contains(e)); }
            if k <= 2 { lemma_maybe_push_keeps(t2, lz == 0, (cx, (cz - 1) as i32), e); }
            if k == 3 { assert(t3.last() == e); assert(t3.contains(e)); }
            if k <= 3 { lemma_maybe_push_keeps(t3, lz == sz - 1, (cx, (cz + 1) as i32), e); }
            if k == 4 { assert(t4.last() == e); assert(t4.contains(e)); }
            if k <= 4 { lemma_maybe_push_keeps(t4, lx == 0 && lz == 0, ((cx - 1) as i32, (cz - 1) as i32), e); }
            if k == 5 { assert(t5.last() == e); assert(t5.contains(e)); }
            if k <= 5 { lemma_maybe_push_keeps(t5, lx == 0 && lz == sz - 1, ((cx - 1) as i32, (cz + 1) as i32), e); }
            if k == 6 { assert(t6.last() == e); assert(t6.contains(e)); }
            if k <= 6 { lemma_maybe_push_keeps(t6, lx == sx - 1 && lz == 0, ((cx + 1) as i32, (cz - 1) as i32), e); }
            if k == 7 { assert(t7.last() == e); assert(t7.contains(e)); }
            if k <= 7 { lemma_maybe_push_keeps(t7, lx == sx - 1 && lz == sz - 1, ((cx + 1) as i32, (cz + 1) as i32), e); }
            if k == 8 { assert(t8.last() == e); assert(t8.contains(e)); }
        }
    }
    assert forall|p: i32, q: i32| l.contains((p, q)) <==> exists|a: int, b: int|
        -1 <= a <= 1 && -1 <= b <= 1
        && #[trigger] neighbor_column_chunk(sx, sz, wx as int, wz as int, a, b) == (p as int, q as int) by {
        if l.contains((p, q)) {
            let i = choose|i: int| 0 <= i < l.len() && l[i] == (p, q);
            assert(l[i] == (p, q));
        }
        if exists|a: int, b: int| -1 <= a <= 1 && -1 <= b <= 1
            && #[trigger] neighbor_column_chunk(sx, sz, wx as int, wz as int, a, b) == (p as int, q as int) {
            let (a, b) = choose|a: int, b: int| -1 <= a <= 1 && -1 <= b <= 1
                && #[trigger] neighbor_column_chunk(sx, sz, wx as int, wz as int, a, b) == (p as int, q as int);
            assert(l.contains(((neighbor_column_chunk(sx, sz, wx as int, wz as int, a, b)).0 as i32, neighbor_column_chunk(sx, sz, wx as int, wz as int, a, b).1 as i32)));
        }
    }
}

} // verus!
