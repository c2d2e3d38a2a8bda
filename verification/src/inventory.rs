//! The table of chunk slots that the game loop keeps: which chunks are
//! loading, which are ready, and what each ready chunk holds.
use vstd::prelude::*;
use vstd::hash_map::HashMapWithView;
use vstd::hash_set::HashSetWithView;
use crate::chunkbuf::ChunkBuf;
use crate::coords::ChunkCoord;
use crate::session::ChunkLifecycle;

verus! {

/// Whether a generated chunk holds any blocks.
#[derive(Clone, Copy, Debug, PartialEq, Eq, Structural)]
pub enum ChunkOccupancy {
    Empty,
    Populated,
}

impl ChunkOccupancy {
    pub fn has_blocks(self) -> (r: bool)
        ensures
            r == (self == ChunkOccupancy::Populated),
    {
        match self {
            ChunkOccupancy::Populated => true,
            ChunkOccupancy::Empty => false,
        }
    }
}

/// One chunk slot.
pub struct ChunkEntry {
    pub buf: Option<ChunkBuf>,
    pub occupancy: Option<ChunkOccupancy>,
    pub built_rev: u64,
    pub lifecycle: ChunkLifecycle,
    pub lighting_ready: bool,
    pub mesh_ready: bool,
    /// The chunk's column profile, serialized.
    pub column_profile_blob: Option<Vec<u8>>,
}

impl ChunkEntry {
    /// A slot whose chunk is being generated.
    pub open spec fn is_loading_slot(&self) -> bool {
        &&& self.buf is None
        &&& self.occupancy is None
        &&& self.built_rev == 0
        &&& self.lifecycle == ChunkLifecycle::Loading
        &&& !self.lighting_ready
        &&& !self.mesh_ready
        &&& self.column_profile_blob is None
    }

    pub fn loading() -> (r: ChunkEntry)
        ensures
            r.is_loading_slot(),
    {
        ChunkEntry {
            buf: None,
            occupancy: None,
            built_rev: 0,
            lifecycle: ChunkLifecycle::Loading,
            lighting_ready: false,
            mesh_ready: false,
            column_profile_blob: None,
        }
    }

    pub fn is_ready(&self) -> (r: bool)
        ensures
            r == (self.lifecycle == ChunkLifecycle::Ready),
    {
        self.lifecycle.is_ready()
    }

    /// The recorded occupancy, empty while none is recorded.
    pub fn occupancy_or_empty(&self) -> (r: ChunkOccupancy)
        ensures
            r == match self.occupancy {
                Some(o) => o,
                None => ChunkOccupancy::Empty,
            },
    {
        match self.occupancy {
            Some(o) => o,
            None => ChunkOccupancy::Empty,
        }
    }

    /// Whether the recorded occupancy says the chunk holds blocks.
    pub fn has_blocks(&self) -> (r: bool)
        ensures
            r == (self.occupancy == Some(ChunkOccupancy::Populated)),
    {
        match self.occupancy {
            Some(o) => o.has_blocks(),
            None => false,
        }
    }

    /// Records a finished chunk: its occupancy, blocks, revision and column
    /// profile; the lighting and mesh flags stay as they were.
    pub fn set_ready(&mut self, occ: ChunkOccupancy, buf: Option<ChunkBuf>, built_rev: u64, column_profile_blob: Option<Vec<u8>>)
        ensures
            final(self).occupancy == Some(occ),
            final(self).buf == buf,
            final(self).built_rev == built_rev,
            final(self).lifecycle == ChunkLifecycle::Ready,
            final(self).column_profile_blob == column_profile_blob,
            final(self).lighting_ready == old(self).lighting_ready,
            final(self).mesh_ready == old(self).mesh_ready,
    {
        self.occupancy = Some(occ);
        self.buf = buf;
        self.built_rev = built_rev;
        self.lifecycle = ChunkLifecycle::Ready;
        self.column_profile_blob = column_profile_blob;
    }

    /// The slot reset to loading by `mark_loading`: state flags cleared and
    /// the chunk's blocks and occupancy dropped; the revision and column
    /// profile kept.
    pub open spec fn reloading(self, e: ChunkEntry) -> bool {
        &&& e.buf is None
        &&& e.occupancy is None
        &&& e.built_rev == self.built_rev
        &&& e.lifecycle == ChunkLifecycle::Loading
        &&& !e.lighting_ready
        &&& !e.mesh_ready
        &&& e.column_profile_blob == self.column_profile_blob
    }
}

/// The slot key of a chunk: its three coordinates, each shifted to be
/// non-negative, as the digits of a number in base 2^32.
pub open spec fn slot_key(c: ChunkCoord) -> u128 {
    ((c.cx + 0x8000_0000) * 0x1_0000_0000_0000_0000 + (c.cy + 0x8000_0000) * 0x1_0000_0000
        + (c.cz + 0x8000_0000)) as u128
}

proof fn lemma_slot_key_inj(a: ChunkCoord, b: ChunkCoord)
    requires
        slot_key(a) == slot_key(b),
    ensures
        a == b,
{
    let (a1, a2, a3) = (a.cx + 0x8000_0000, a.cy + 0x8000_0000, a.cz + 0x8000_0000);
    let (b1, b2, b3) = (b.cx + 0x8000_0000, b.cy + 0x8000_0000, b.cz + 0x8000_0000);
    assert(a1 * 0x1_0000_0000_0000_0000 + a2 * 0x1_0000_0000 + a3 == b1 * 0x1_0000_0000_0000_0000 + b2 * 0x1_0000_0000 + b3);
    assert(a1 == b1 && a2 == b2 && a3 == b3) by (nonlinear_arith)
        requires
            a1 * 0x1_0000_0000_0000_0000 + a2 * 0x1_0000_0000 + a3 == b1 * 0x1_0000_0000_0000_0000 + b2 * 0x1_0000_0000 + b3,
            0 <= a1 < 0x1_0000_0000, 0 <= a2 < 0x1_0000_0000, 0 <= a3 < 0x1_0000_0000,
            0 <= b1 < 0x1_0000_0000, 0 <= b2 < 0x1_0000_0000, 0 <= b3 < 0x1_0000_0000;
}

fn key_of(c: ChunkCoord) -> (k: u128)
    ensures
        k == slot_key(c),
{
    let a: u128 = (c.cx as i64 + 0x8000_0000) as u128;
    let b: u128 = (c.cy as i64 + 0x8000_0000) as u128;
    let d: u128 = (c.cz as i64 + 0x8000_0000) as u128;
    assert(a * 0x1_0000_0000_0000_0000 + b * 0x1_0000_0000 + d < 0x1_0000_0000_0000_0000_0000_0000) by (nonlinear_arith)
        requires a < 0x1_0000_0000, b < 0x1_0000_0000, d < 0x1_0000_0000;
    a * 0x1_0000_0000_0000_0000 + b * 0x1_0000_0000 + d
}

/// The chunk slots, keyed by chunk coordinate.
pub struct ChunkInventory {
    slots: HashMapWithView<u128, ChunkEntry>,
    coords: Vec<ChunkCoord>,
}

impl ChunkInventory {
    /// The slot of each chunk that has one.
    pub closed spec fn entries(&self) -> Map<ChunkCoord, ChunkEntry> {
        Map::new(|c: ChunkCoord| self.slots@.contains_key(slot_key(c)), |c: ChunkCoord| self.slots@[slot_key(c)])
    }

    /// The chunks whose slot holds a finished chunk.
    pub open spec fn ready_set(&self) -> Set<ChunkCoord> {
        self.entries().dom().filter(|c: ChunkCoord| self.entries()[c].lifecycle == ChunkLifecycle::Ready)
    }

    pub open spec fn spec_mesh_ready(&self, c: ChunkCoord) -> bool {
        self.spec_is_ready(c) && self.entries()[c].mesh_ready
    }

    pub open spec fn spec_is_ready(&self, c: ChunkCoord) -> bool {
        self.entries().contains_key(c) && self.entries()[c].lifecycle == ChunkLifecycle::Ready
    }

    pub closed spec fn wf(&self) -> bool {
        &&& self.coords@.no_duplicates()
        &&& forall|i: int| 0 <= i < self.coords@.len() ==> self.slots@.contains_key(#[trigger] slot_key(self.coords@[i]))
        &&& forall|k: u128| #[trigger] self.slots@.contains_key(k) ==> exists|i: int| 0 <= i < self.coords@.len() && slot_key(self.coords@[i]) == k
    }

    proof fn lemma_coords_are_dom(&self)
        requires
            self.wf(),
        ensures
            self.coords@.to_set() == self.entries().dom(),
            self.entries().dom().finite(),
    {
        assert forall|c: ChunkCoord| #[trigger] self.coords@.to_set().contains(c) <==> self.entries().dom().contains(c) by {
            if self.entries().dom().contains(c) {
                let i = choose|i: int| 0 <= i < self.coords@.len() && slot_key(self.coords@[i]) == slot_key(c);
                lemma_slot_key_inj(self.coords@[i], c);
                assert(self.coords@[i] == c);
            }
            if self.coords@.to_set().contains(c) {
                let i = choose|i: int| 0 <= i < self.coords@.len() && self.coords@[i] == c;
                assert(self.slots@.contains_key(slot_key(self.coords@[i])));
            }
        }
        assert(self.coords@.to_set() =~= self.entries().dom());
        self.coords@.lemma_cardinality_of_set();
    }

    pub fn new() -> (r: ChunkInventory)
        ensures
            r.wf(),
            r.entries() == Map::<ChunkCoord, ChunkEntry>::empty(),
    {
        broadcast use vstd::std_specs::hash::group_hash_axioms;
        let r = ChunkInventory { slots: HashMapWithView::new(), coords: Vec::new() };
        assert(r.entries() =~= Map::<ChunkCoord, ChunkEntry>::empty());
        r
    }

    /// The number of ready chunks.
    pub fn ready_len(&self) -> (r: usize)
        requires
            self.wf(),
        ensures
            r == self.ready_set().len(),
    {
        broadcast use vstd::std_specs::hash::group_hash_axioms;
        let ghost cs = self.coords@;
        let ghost p = |c: ChunkCoord| self.entries()[c].lifecycle == ChunkLifecycle::Ready;
        let mut n: usize = 0;
        let mut i: usize = 0;
        while i < self.coords.len()
            invariant
                self.wf(),
                cs == self.coords@,
                i <= cs.len(),
                p == (|c: ChunkCoord| self.entries()[c].lifecycle == ChunkLifecycle::Ready),
                n == cs.take(i as int).filter(p).len(),
                n <= i,
            decreases cs.len() - i,
        {
            let c = self.coords[i];
            let k = key_of(c);
            proof {
                cs.take(i as int).lemma_filter_push(c, p);
                assert(cs.take(i + 1) =~= cs.take(i as int).push(c));
                assert(self.slots@.contains_key(slot_key(cs[i as int])));
                assert(self.entries().contains_key(c));
                assert(self.entries()[c] == self.slots@[k]);
            }
            match self.slots.get(&k) {
                Some(e) => {
                    if e.is_ready() {
                        n = n + 1;
                    }
                },
                None => {},
            }
            i = i + 1;
        }
        proof {
            assert(cs.take(i as int) =~= cs);
            self.lemma_coords_are_dom();
            lemma_filter_card(cs, p);
            assert(cs.filter(p).to_set() =~= self.ready_set());
        }
        n
    }

    /// Whether `coord` has a ready chunk.
    pub fn is_ready(&self, coord: ChunkCoord) -> (r: bool)
        requires
            self.wf(),
        ensures
            r == self.spec_is_ready(coord),
    {
        broadcast use vstd::std_specs::hash::group_hash_axioms;
        let k = key_of(coord);
        match self.slots.get(&k) {
            Some(e) => e.is_ready(),
            None => false,
        }
    }

    /// The slot of `coord` if its chunk is ready.
    pub fn get(&self, coord: &ChunkCoord) -> (r: Option<&ChunkEntry>)
        requires
            self.wf(),
        ensures
            match r {
                Some(e) => self.spec_is_ready(*coord) && *e == self.entries()[*coord],
                None => !self.spec_is_ready(*coord),
            },
    {
        broadcast use vstd::std_specs::hash::group_hash_axioms;
        let k = key_of(*coord);
        match self.slots.get(&k) {
            Some(e) => {
                if e.is_ready() {
                    Some(e)
                } else {
                    None
                }
            },
            None => None,
        }
    }

    /// Whether `coord`'s chunk is ready and meshed.
    pub fn mesh_ready(&self, coord: ChunkCoord) -> (r: bool)
        requires
            self.wf(),
        ensures
            r == self.spec_mesh_ready(coord),
    {
        broadcast use vstd::std_specs::hash::group_hash_axioms;
        let k = key_of(coord);
        match self.slots.get(&k) {
            Some(e) => e.mesh_ready && e.is_ready(),
            None => false,
        }
    }

    /// The coordinate list and the slots agree, except that `coord` may be
    /// listed without a slot.
    spec fn open_at(&self, coord: ChunkCoord) -> bool {
        &&& self.coords@.no_duplicates()
        &&& forall|i: int| 0 <= i < self.coords@.len() && self.coords@[i] != coord
            ==> self.slots@.contains_key(#[trigger] slot_key(self.coords@[i]))
        &&& forall|k: u128| #[trigger] self.slots@.contains_key(k) ==>
            exists|i: int| 0 <= i < self.coords@.len() && slot_key(self.coords@[i]) == k
    }

    /// Takes `coord`'s slot out, if it has one.
    fn take(&mut self, coord: ChunkCoord) -> (r: Option<ChunkEntry>)
        requires
            old(self).wf(),
        ensures
            final(self).open_at(coord),
            final(self).coords@ == old(self).coords@,
            final(self).slots@ == old(self).slots@.remove(slot_key(coord)),
            final(self).entries() == old(self).entries().remove(coord),
            r == if old(self).entries().contains_key(coord) { Some(old(self).entries()[coord]) } else { None },
    {
        broadcast use vstd::std_specs::hash::group_hash_axioms;
        let k = key_of(coord);
        let r = self.slots.remove(&k);
        proof {
            assert forall|i: int| 0 <= i < self.coords@.len() && self.coords@[i] != coord
                implies self.slots@.contains_key(#[trigger] slot_key(self.coords@[i])) by {
                assert(old(self).slots@.contains_key(slot_key(self.coords@[i])));
                if slot_key(self.coords@[i]) == k {
                    lemma_slot_key_inj(self.coords@[i], coord);
                }
            }
            assert forall|q: u128| #[trigger] self.slots@.contains_key(q) implies
                exists|i: int| 0 <= i < self.coords@.len() && slot_key(self.coords@[i]) == q by {
                assert(old(self).slots@.contains_key(q));
                let i = choose|i: int| 0 <= i < old(self).coords@.len() && slot_key(old(self).coords@[i]) == q;
                assert(slot_key(self.coords@[i]) == q);
            }
            assert(self.entries() =~= old(self).entries().remove(coord)) by {
                assert forall|c: ChunkCoord| #[trigger] self.entries().contains_key(c) <==> old(self).entries().remove(coord).contains_key(c) by {
                    if slot_key(c) == k {
                        lemma_slot_key_inj(c, coord);
                    }
                }
            }
        }
        r
    }

    /// Puts `e` in `coord`'s slot, listing `coord` if it is not yet listed.
    fn put(&mut self, coord: ChunkCoord, e: ChunkEntry)
        requires
            old(self).open_at(coord),
        ensures
            final(self).wf(),
            final(self).entries() == old(self).entries().insert(coord, e),
    {
        broadcast use vstd::std_specs::hash::group_hash_axioms;
        let k = key_of(coord);
        self.slots.insert(k, e);
        proof {
            assert(self.entries() =~= old(self).entries().insert(coord, e)) by {
                assert forall|c: ChunkCoord| #[trigger] self.entries().contains_key(c) <==> old(self).entries().insert(coord, e).contains_key(c) by {
                    if slot_key(c) == k {
                        lemma_slot_key_inj(c, coord);
                    }
                }
                assert forall|c: ChunkCoord| #[trigger] self.entries().contains_key(c) implies self.entries()[c] == old(self).entries().insert(coord, e)[c] by {
                    if slot_key(c) == k {
                        lemma_slot_key_inj(c, coord);
                    }
                }
            }
        }
        let mut i: usize = 0;
        let mut found = false;
        while i < self.coords.len()
            invariant
                self.coords@ == old(self).coords@,
                self.slots@ == old(self).slots@.insert(k, e),
                k == slot_key(coord),
                i <= self.coords@.len(),
                found ==> exists|j: int| 0 <= j < self.coords@.len() && self.coords@[j] == coord,
                !found ==> forall|j: int| 0 <= j < i ==> self.coords@[j] != coord,
            decreases self.coords@.len() - i,
        {
            if self.coords[i] == coord {
                found = true;
            }
            i = i + 1;
        }
        if !found {
            let ghost old_coords = self.coords@;
            self.coords.push(coord);
            proof {
                assert forall|a: int, b: int| 0 <= a < b < self.coords@.len() implies self.coords@[a] != self.coords@[b] by {
                    if b == old_coords.len() {
                        assert(old_coords[a] == self.coords@[a]);
                    } else {
                        assert(old_coords[a] == self.coords@[a] && old_coords[b] == self.coords@[b]);
                    }
                }
                assert forall|j: int| 0 <= j < self.coords@.len() implies self.slots@.contains_key(#[trigger] slot_key(self.coords@[j])) by {
                    if j < old_coords.len() {
                        assert(self.coords@[j] == old_coords[j]);
                        if old_coords[j] != coord {
                            assert(old(self).slots@.contains_key(slot_key(old_coords[j])));
                        }
                    }
                }
                assert forall|q: u128| #[trigger] self.slots@.contains_key(q) implies exists|j: int| 0 <= j < self.coords@.len() && slot_key(self.coords@[j]) == q by {
                    if q == k {
                        assert(self.coords@[old_coords.len() as int] == coord);
                    } else {
                        assert(old(self).slots@.contains_key(q));
                        let j = choose|j: int| 0 <= j < old_coords.len() && slot_key(old_coords[j]) == q;
                        assert(self.coords@[j] == old_coords[j]);
                    }
                }
            }
        } else {
            proof {
                assert forall|j: int| 0 <= j < self.coords@.len() implies self.slots@.contains_key(#[trigger] slot_key(self.coords@[j])) by {
                    if self.coords@[j] != coord {
                        assert(old(self).slots@.contains_key(slot_key(self.coords@[j])));
                    }
                }
                assert forall|q: u128| #[trigger] self.slots@.contains_key(q) implies exists|j: int| 0 <= j < self.coords@.len() && slot_key(self.coords@[j]) == q by {
                    if q == k {
                        let j = choose|j: int| 0 <= j < self.coords@.len() && self.coords@[j] == coord;
                        assert(slot_key(self.coords@[j]) == q);
                    } else {
                        assert(old(self).slots@.contains_key(q));
                    }
                }
            }
        }
    }

    /// Marks `coord`'s chunk as loading: an existing slot is reset (see
    /// `ChunkEntry::reloading`), a missing one is added as a loading slot.
    pub fn mark_loading(&mut self, coord: ChunkCoord)
        requires
            old(self).wf(),
        ensures
            final(self).wf(),
            final(self).entries().dom() == old(self).entries().dom().insert(coord),
            forall|c: ChunkCoord| c != coord && #[trigger] old(self).entries().contains_key(c) ==> final(self).entries()[c] == old(self).entries()[c],
            old(self).entries().contains_key(coord) ==> old(self).entries()[coord].reloading(final(self).entries()[coord]),
            !old(self).entries().contains_key(coord) ==> final(self).entries()[coord].is_loading_slot(),
    {
        let e = match self.take(coord) {
            Some(mut e) => {
                e.lifecycle = ChunkLifecycle::Loading;
                e.lighting_ready = false;
                e.mesh_ready = false;
                e.occupancy = None;
                e.buf = None;
                e
            },
            None => ChunkEntry::loading(),
        };
        self.put(coord, e);
        proof {
            assert(self.entries().dom() =~= old(self).entries().dom().insert(coord));
        }
    }

    /// Records `coord`'s finished chunk, adding its slot if needed (see
    /// `ChunkEntry::set_ready`; a new slot starts from a loading slot).
    pub fn mark_ready(&mut self, coord: ChunkCoord, occupancy: ChunkOccupancy, buf: Option<ChunkBuf>, built_rev: u64, column_profile_blob: Option<Vec<u8>>)
        requires
            old(self).wf(),
        ensures
            final(self).wf(),
            final(self).entries().dom() == old(self).entries().dom().insert(coord),
            forall|c: ChunkCoord| c != coord && #[trigger] old(self).entries().contains_key(c) ==> final(self).entries()[c] == old(self).entries()[c],
            ({
                let e = final(self).entries()[coord];
                &&& e.occupancy == Some(occupancy)
                &&& e.buf == buf
                &&& e.built_rev == built_rev
                &&& e.lifecycle == ChunkLifecycle::Ready
                &&& e.column_profile_blob == column_profile_blob
                &&& e.lighting_ready == (old(self).entries().contains_key(coord) && old(self).entries()[coord].lighting_ready)
                &&& e.mesh_ready == (old(self).entries().contains_key(coord) && old(self).entries()[coord].mesh_ready)
            }),
    {
        let mut e = match self.take(coord) {
            Some(e) => e,
            None => ChunkEntry::loading(),
        };
        e.set_ready(occupancy, buf, built_rev, column_profile_blob);
        self.put(coord, e);
        proof {
            assert(self.entries().dom() =~= old(self).entries().dom().insert(coord));
        }
    }

    /// Sets the meshed flag of `coord`'s slot, if it has one.
    pub fn set_mesh_ready(&mut self, coord: ChunkCoord, ready: bool)
        requires
            old(self).wf(),
        ensures
            final(self).wf(),
            old(self).entries().contains_key(coord) ==> final(self).entries() == old(self).entries().insert(coord,
                ChunkEntry { mesh_ready: ready, ..old(self).entries()[coord] }),
            !old(self).entries().contains_key(coord) ==> final(self).entries() == old(self).entries(),
    {
        match self.take(coord) {
            Some(mut e) => {
                e.mesh_ready = ready;
                self.put(coord, e);
                proof {
                    assert(self.entries() =~= old(self).entries().insert(coord, ChunkEntry { mesh_ready: ready, ..old(self).entries()[coord] }));
                }
            },
            None => {
                proof {
                    assert(self.slots@ =~= old(self).slots@);
                    assert(self.entries() =~= old(self).entries());
                }
            },
        }
    }

    /// Sets the lighting flag of `coord`'s slot, if it has one.
    pub fn set_lighting_ready(&mut self, coord: ChunkCoord, ready: bool)
        requires
            old(self).wf(),
        ensures
            final(self).wf(),
            old(self).entries().contains_key(coord) ==> final(self).entries() == old(self).entries().insert(coord,
                ChunkEntry { lighting_ready: ready, ..old(self).entries()[coord] }),
            !old(self).entries().contains_key(coord) ==> final(self).entries() == old(self).entries(),
    {
        match self.take(coord) {
            Some(mut e) => {
                e.lighting_ready = ready;
                self.put(coord, e);
                proof {
                    assert(self.entries() =~= old(self).entries().insert(coord, ChunkEntry { lighting_ready: ready, ..old(self).entries()[coord] }));
                }
            },
            None => {
                proof {
                    assert(self.slots@ =~= old(self).slots@);
                    assert(self.entries() =~= old(self).entries());
                }
            },
        }
    }

    /// Drops the column profile of `coord`'s slot, if it has one.
    pub fn clear_column_profile(&mut self, coord: &ChunkCoord)
        requires
            old(self).wf(),
        ensures
            final(self).wf(),
            old(self).entries().contains_key(*coord) ==> final(self).entries() == old(self).entries().insert(*coord,
                ChunkEntry { column_profile_blob: None, ..old(self).entries()[*coord] }),
            !old(self).entries().contains_key(*coord) ==> final(self).entries() == old(self).entries(),
    {
        match self.take(*coord) {
            Some(mut e) => {
                e.column_profile_blob = None;
                self.put(*coord, e);
                proof {
                    assert(self.entries() =~= old(self).entries().insert(*coord, ChunkEntry { column_profile_blob: None, ..old(self).entries()[*coord] }));
                }
            },
            None => {
                proof {
                    assert(self.slots@ =~= old(self).slots@);
                    assert(self.entries() =~= old(self).entries());
                }
            },
        }
    }

    /// Forgets `coord`'s slot.
    pub fn mark_missing(&mut self, coord: ChunkCoord)
        requires
            old(self).wf(),
        ensures
            final(self).wf(),
            final(self).entries() == old(self).entries().remove(coord),
    {
        broadcast use vstd::std_specs::hash::group_hash_axioms;
        let k = key_of(coord);
        let _ = self.slots.remove(&k);
        let mut i: usize = 0;
        while i < self.coords.len()
            invariant
                old(self).wf(),
                k == slot_key(coord),
                self.coords@ == old(self).coords@,
                self.slots@ == old(self).slots@.remove(k),
                i <= self.coords@.len(),
                forall|j: int| 0 <= j < i ==> self.coords@[j] != coord,
            decreases self.coords@.len() - i,
        {
            if self.coords[i] == coord {
                let ghost old_coords = self.coords@;
                self.coords.swap_remove(i);
                proof {
                    let n = old_coords.len();
                    assert forall|a: int, b: int| 0 <= a < b < self.coords@.len() implies self.coords@[a] != self.coords@[b] by {
                        let oa = if a == i { n - 1 } else { a };
                        let ob = if b == i { n - 1 } else { b };
                        assert(self.coords@[a] == old_coords[oa]);
                        assert(self.coords@[b] == old_coords[ob]);
                    }
                    assert forall|j: int| 0 <= j < self.coords@.len() implies self.slots@.contains_key(#[trigger] slot_key(self.coords@[j])) by {
                        let oj = if j == i { n - 1 } else { j };
                        assert(self.coords@[j] == old_coords[oj]);
                        assert(old(self).slots@.contains_key(slot_key(old_coords[oj])));
                        if slot_key(old_coords[oj]) == k {
                            lemma_slot_key_inj(old_coords[oj], coord);
                        }
                    }
                    assert forall|q: u128| #[trigger] self.slots@.contains_key(q) implies exists|j: int| 0 <= j < self.coords@.len() && slot_key(self.coords@[j]) == q by {
                        let oj = choose|j: int| 0 <= j < old_coords.len() && slot_key(old_coords[j]) == q;
                        assert(oj != i);
                        if oj == n - 1 {
                            assert(slot_key(self.coords@[i as int]) == q);
                        } else {
                            assert(slot_key(self.coords@[oj]) == q);
                        }
                    }
                    assert(self.entries() =~= old(self).entries().remove(coord)) by {
                        assert forall|c: ChunkCoord| #[trigger] self.entries().contains_key(c) <==> old(self).entries().remove(coord).contains_key(c) by {
                            if slot_key(c) == k {
                                lemma_slot_key_inj(c, coord);
                            }
                        }
                    }
                }
                return;
            }
            i = i + 1;
        }
        proof {
            assert forall|j: int| 0 <= j < self.coords@.len() implies self.slots@.contains_key(#[trigger] slot_key(self.coords@[j])) by {
                assert(old(self).slots@.contains_key(slot_key(self.coords@[j])));
                if slot_key(self.coords@[j]) == k {
                    lemma_slot_key_inj(self.coords@[j], coord);
                }
            }
            assert(self.entries() =~= old(self).entries().remove(coord)) by {
                assert forall|c: ChunkCoord| #[trigger] self.entries().contains_key(c) <==> old(self).entries().remove(coord).contains_key(c) by {
                    if slot_key(c) == k {
                        lemma_slot_key_inj(c, coord);
                    }
                }
            }
        }
    }

    /// Every chunk with a slot, ready or not, each once.
    pub fn coords_any(&self) -> (r: Vec<ChunkCoord>)
        requires
            self.wf(),
        ensures
            r@.no_duplicates(),
            r@.to_set() == self.entries().dom(),
    {
        proof {
            self.lemma_coords_are_dom();
        }
        self.coords.clone()
    }

    /// Every ready chunk, each once.
    pub fn ready_coords(&self) -> (r: Vec<ChunkCoord>)
        requires
            self.wf(),
        ensures
            r@.no_duplicates(),
            r@.to_set() == self.ready_set(),
    {
        broadcast use vstd::std_specs::hash::group_hash_axioms;
        let ghost cs = self.coords@;
        let ghost p = |c: ChunkCoord| self.entries()[c].lifecycle == ChunkLifecycle::Ready;
        let mut out: Vec<ChunkCoord> = Vec::new();
        let mut i: usize = 0;
        while i < self.coords.len()
            invariant
                self.wf(),
                cs == self.coords@,
                i <= cs.len(),
                p == (|c: ChunkCoord| self.entries()[c].lifecycle == ChunkLifecycle::Ready),
                out@ == cs.take(i as int).filter(p),
            decreases cs.len() - i,
        {
            let c = self.coords[i];
            let k = key_of(c);
            proof {
                cs.take(i as int).lemma_filter_push(c, p);
                assert(cs.take(i + 1) =~= cs.take(i as int).push(c));
                assert(self.slots@.contains_key(slot_key(cs[i as int])));
                assert(self.entries().contains_key(c));
                assert(self.entries()[c] == self.slots@[k]);
            }
            match self.slots.get(&k) {
                Some(e) => {
                    if e.is_ready() {
                        out.push(c);
                    }
                },
                None => {},
            }
            i = i + 1;
        }
        proof {
            assert(cs.take(i as int) =~= cs);
            self.lemma_coords_are_dom();
            lemma_filter_card(cs, p);
            assert(cs.filter(p).to_set() =~= self.ready_set());
        }
        out
    }
}

/// Figures on the ready chunks, for the debug overlay.
#[derive(Clone, Copy, Debug, PartialEq, Eq, Structural)]
pub struct ResidentStats {
    /// Ready chunks.
    pub ready: usize,
    /// Ready chunks that hold blocks.
    pub nonempty: usize,
    /// Distinct X, Y and Z chunk coordinates among the ready chunks.
    pub unique_cx: usize,
    pub unique_cy: usize,
    pub unique_cz: usize,
}

impl ChunkInventory {
    /// The ready chunks that hold blocks.
    pub open spec fn nonempty_set(&self) -> Set<ChunkCoord> {
        self.ready_set().filter(|c: ChunkCoord| self.entries()[c].occupancy == Some(ChunkOccupancy::Populated))
    }

    /// Counts the ready chunks, those that hold blocks, and the distinct
    /// coordinates along each axis among them.
    pub fn resident_stats(&self) -> (r: ResidentStats)
        requires
            self.wf(),
        ensures
            r.ready == self.ready_set().len(),
            r.nonempty == self.nonempty_set().len(),
            r.unique_cx == self.ready_set().map(|c: ChunkCoord| c.cx).len(),
            r.unique_cy == self.ready_set().map(|c: ChunkCoord| c.cy).len(),
            r.unique_cz == self.ready_set().map(|c: ChunkCoord| c.cz).len(),
    {
        broadcast use vstd::std_specs::hash::group_hash_axioms;
        broadcast use vstd::seq_lib::group_seq_properties;
        let ghost cs = self.coords@;
        let ghost p = |c: ChunkCoord| self.entries()[c].lifecycle == ChunkLifecycle::Ready;
        let ghost q = |c: ChunkCoord| self.entries()[c].lifecycle == ChunkLifecycle::Ready
            && self.entries()[c].occupancy == Some(ChunkOccupancy::Populated);
        let ghost fx = |c: ChunkCoord| c.cx;
        let ghost fy = |c: ChunkCoord| c.cy;
        let ghost fz = |c: ChunkCoord| c.cz;
        let mut ready: usize = 0;
        let mut nonempty: usize = 0;
        let mut xs: HashSetWithView<i32> = HashSetWithView::new();
        let mut ys: HashSetWithView<i32> = HashSetWithView::new();
        let mut zs: HashSetWithView<i32> = HashSetWithView::new();
        let mut i: usize = 0;
        while i < self.coords.len()
            invariant
                self.wf(),
                cs == self.coords@,
                i <= cs.len(),
                p == (|c: ChunkCoord| self.entries()[c].lifecycle == ChunkLifecycle::Ready),
                q == (|c: ChunkCoord| self.entries()[c].lifecycle == ChunkLifecycle::Ready
                    && self.entries()[c].occupancy == Some(ChunkOccupancy::Populated)),
                fx == (|c: ChunkCoord| c.cx),
                fy == (|c: ChunkCoord| c.cy),
                fz == (|c: ChunkCoord| c.cz),
                ready == cs.take(i as int).filter(p).len(),
                nonempty == cs.take(i as int).filter(q).len(),
                ready <= i,
                nonempty <= i,
                xs@ == cs.take(i as int).filter(p).map_values(fx).to_set(),
                ys@ == cs.take(i as int).filter(p).map_values(fy).to_set(),
                zs@ == cs.take(i as int).filter(p).map_values(fz).to_set(),
            decreases cs.len() - i,
        {
            let c = self.coords[i];
            let k = key_of(c);
            let ghost before = cs.take(i as int);
            proof {
                before.lemma_filter_push(c, p);
                before.lemma_filter_push(c, q);
                assert(cs.take(i + 1) =~= before.push(c));
                assert(self.slots@.contains_key(slot_key(cs[i as int])));
                assert(self.entries().contains_key(c));
                assert(self.entries()[c] == self.slots@[k]);
                before.filter(p).lemma_push_map_commute(fx, c);
                before.filter(p).lemma_push_map_commute(fy, c);
                before.filter(p).lemma_push_map_commute(fz, c);
                before.filter(p).map_values(fx).lemma_push_to_set_commute(c.cx);
                before.filter(p).map_values(fy).lemma_push_to_set_commute(c.cy);
                before.filter(p).map_values(fz).lemma_push_to_set_commute(c.cz);
            }
            match self.slots.get(&k) {
                Some(e) => {
                    if e.is_ready() {
                        ready = ready + 1;
                        if e.has_blocks() {
                            nonempty = nonempty + 1;
                        }
                        xs.insert(c.cx);
                        ys.insert(c.cy);
                        zs.insert(c.cz);
                    }
                },
                None => {},
            }
            i = i + 1;
        }
        proof {
            assert(cs.take(i as int) =~= cs);
            self.lemma_coords_are_dom();
            lemma_filter_card(cs, p);
            lemma_filter_card(cs, q);
            assert(cs.filter(p).to_set() =~= self.ready_set());
            assert(cs.filter(q).to_set() =~= self.nonempty_set());
            cs.filter(p).lemma_to_set_map_commutes(fx);
            cs.filter(p).lemma_to_set_map_commutes(fy);
            cs.filter(p).lemma_to_set_map_commutes(fz);
            assert(self.ready_set().map(fx) =~= self.ready_set().map(|c: ChunkCoord| c.cx));
            assert(self.ready_set().map(fy) =~= self.ready_set().map(|c: ChunkCoord| c.cy));
            assert(self.ready_set().map(fz) =~= self.ready_set().map(|c: ChunkCoord| c.cz));
        }
        ResidentStats { ready, nonempty, unique_cx: xs.len(), unique_cy: ys.len(), unique_cz: zs.len() }
    }
}

/// Filtering a sequence without duplicates keeps it so, and the result
/// lists exactly the filtered set of its elements.
proof fn lemma_filter_card<A>(s: Seq<A>, p: spec_fn(A) -> bool)
    requires
        s.no_duplicates(),
    ensures
        s.filter(p).no_duplicates(),
        s.filter(p).to_set() == s.to_set().filter(p),
        s.filter(p).to_set().len() == s.filter(p).len(),
    decreases s.len(),
{
    broadcast use vstd::seq_lib::group_seq_properties;
    if s.len() == 0 {
        assert(s.filter(p) =~= Seq::<A>::empty()) by {
            reveal(Seq::filter);
        }
    } else {
        let init = s.drop_last();
        let x = s.last();
        assert(s =~= init.push(x));
        lemma_filter_card(init, p);
        init.lemma_filter_push(x, p);
        assert(!init.contains(x));
        if p(x) {
            if init.filter(p).contains(x) {
                init.lemma_filter_contains_rev(p, x);
            }
            assert(s.filter(p) =~= init.filter(p).push(x));
            assert forall|a: int, b: int| 0 <= a < b < s.filter(p).len() implies s.filter(p)[a] != s.filter(p)[b] by {
                if b == init.filter(p).len() {
                    assert(init.filter(p).contains(s.filter(p)[a]));
                } else {
                    assert(s.filter(p)[a] == init.filter(p)[a] && s.filter(p)[b] == init.filter(p)[b]);
                }
            }
            assert(s.filter(p).no_duplicates());
        } else {
            assert(s.filter(p) =~= init.filter(p));
        }
    }
    assert forall|y: A| #[trigger] s.filter(p).to_set().contains(y) <==> s.to_set().filter(p).contains(y) by {
        if s.filter(p).contains(y) {
            s.lemma_filter_contains_rev(p, y);
            let i = choose|i: int| 0 <= i < s.filter(p).len() && s.filter(p)[i] == y;
            s.lemma_filter_pred(p, i);
        }
        if s.contains(y) && p(y) {
            let i = choose|i: int| 0 <= i < s.len() && s[i] == y;
            s.lemma_filter_contains(p, i);
        }
    }
    assert(s.filter(p).to_set() =~= s.to_set().filter(p));
    s.filter(p).unique_seq_to_set();
}

/// Which of a chunk's six face neighbors are ready and meshed.
#[derive(Clone, Copy, Debug, Default, PartialEq, Eq, Structural)]
pub struct MeshNeighbors {
    pub neg_x: bool,
    pub pos_x: bool,
    pub neg_y: bool,
    pub pos_y: bool,
    pub neg_z: bool,
    pub pos_z: bool,
}

/// The readiness of `coord`'s six face neighbors in `chunks`.
pub fn neighbor_mask(chunks: &ChunkInventory, coord: ChunkCoord) -> (r: MeshNeighbors)
    requires
        chunks.wf(),
        coord.offset_fits(-1, -1, -1),
        coord.offset_fits(1, 1, 1),
    ensures
        r.neg_x == chunks.spec_mesh_ready(coord.spec_offset(-1, 0, 0)),
        r.pos_x == chunks.spec_mesh_ready(coord.spec_offset(1, 0, 0)),
        r.neg_y == chunks.spec_mesh_ready(coord.spec_offset(0, -1, 0)),
        r.pos_y == chunks.spec_mesh_ready(coord.spec_offset(0, 1, 0)),
        r.neg_z == chunks.spec_mesh_ready(coord.spec_offset(0, 0, -1)),
        r.pos_z == chunks.spec_mesh_ready(coord.spec_offset(0, 0, 1)),
{
    MeshNeighbors {
        neg_x: chunks.mesh_ready(coord.offset(-1, 0, 0)),
        pos_x: chunks.mesh_ready(coord.offset(1, 0, 0)),
        neg_y: chunks.mesh_ready(coord.offset(0, -1, 0)),
        pos_y: chunks.mesh_ready(coord.offset(0, 1, 0)),
        neg_z: chunks.mesh_ready(coord.offset(0, 0, -1)),
        pos_z: chunks.mesh_ready(coord.offset(0, 0, 1)),
    }
}

/// The six readiness flags as bits 0 to 5 (-X, +X, -Y, +Y, -Z, +Z).
pub open spec fn mask_bits(n: MeshNeighbors) -> u64 {
    ((if n.neg_x { 1int } else { 0 }) + (if n.pos_x { 2int } else { 0 }) + (if n.neg_y { 4int } else { 0 })
        + (if n.pos_y { 8int } else { 0 }) + (if n.neg_z { 16int } else { 0 }) + (if n.pos_z { 32int } else { 0 })) as u64
}

/// One step of the 64-bit FNV-1a hash over a whole word.
pub open spec fn fnv_step(h: u64, v: u64) -> u64 {
    (((h ^ v) as nat * 0x100000001b3nat) % 0x1_0000_0000_0000_0000nat) as u64
}

/// The hash of a mesh job: FNV-1a over the chunk coordinates (each
/// sign-extended to 64 bits), the revision and the neighbor bits.
pub open spec fn spec_job_hash(coord: ChunkCoord, rev: u64, n: MeshNeighbors) -> u64 {
    let h0: u64 = 0xcbf29ce484222325;
    fnv_step(fnv_step(fnv_step(fnv_step(fnv_step(h0, coord.cx as u64), coord.cy as u64), coord.cz as u64), rev), mask_bits(n))
}

fn fnv_write(h: u64, v: u64) -> (r: u64)
    ensures
        r == fnv_step(h, v),
{
    (h ^ v).wrapping_mul(0x100000001b3)
}

/// See `spec_job_hash`.
pub fn job_hash(coord: ChunkCoord, rev: u64, n: MeshNeighbors) -> (r: u64)
    ensures
        r == spec_job_hash(coord, rev, n),
{
    let mut h: u64 = 0xcbf29ce484222325;
    h = fnv_write(h, coord.cx as u64);
    h = fnv_write(h, coord.cy as u64);
    h = fnv_write(h, coord.cz as u64);
    h = fnv_write(h, rev);
    let a: u64 = if n.neg_x { 1 } else { 0 };
    let b: u64 = if n.pos_x { 2 } else { 0 };
    let c: u64 = if n.neg_y { 4 } else { 0 };
    let d: u64 = if n.pos_y { 8 } else { 0 };
    let e: u64 = if n.neg_z { 16 } else { 0 };
    let f: u64 = if n.pos_z { 32 } else { 0 };
    let mask: u64 = a + b + c + d + e + f;
    fnv_write(h, mask)
}

} // verus!
