//! Breadth-first light propagation over a voxel grid with uniform
//! attenuation, and the facts that characterize its result: the least
//! light field above the seeds that is closed under propagation.
use vstd::prelude::*;
use std::collections::VecDeque;
use crate::grid::{grid_idx, in_grid, lemma_grid_idx_bounds, lemma_grid_idx_inj};

verus! {

/// Sum of a byte sequence.
pub open spec fn sum_u8(s: Seq<u8>) -> int
    decreases s.len(),
{
    if s.len() == 0 {
        0
    } else {
        sum_u8(s.drop_last()) + s.last()
    }
}

pub proof fn lemma_sum_u8_bounds(s: Seq<u8>)
    ensures
        0 <= sum_u8(s) <= 255 * s.len(),
    decreases s.len(),
{
    if s.len() > 0 {
        lemma_sum_u8_bounds(s.drop_last());
    }
}

pub proof fn lemma_sum_u8_update(s: Seq<u8>, i: int, v: u8)
    requires
        0 <= i < s.len(),
    ensures
        sum_u8(s.update(i, v)) == sum_u8(s) - s[i] + v,
    decreases s.len(),
{
    let t = s.update(i, v);
    if i == s.len() - 1 {
        assert(t.drop_last() =~= s.drop_last());
    } else {
        assert(t.drop_last() =~= s.drop_last().update(i, v));
        lemma_sum_u8_update(s.drop_last(), i, v);
    }
}

/// The neighbor of `(x, y, z)` in direction `d`, in the order
/// `+X, -X, +Y, -Y, +Z, -Z`.
pub open spec fn nb(x: int, y: int, z: int, d: int) -> (int, int, int) {
    if d == 0 {
        (x + 1, y, z)
    } else if d == 1 {
        (x - 1, y, z)
    } else if d == 2 {
        (x, y + 1, z)
    } else if d == 3 {
        (x, y - 1, z)
    } else if d == 4 {
        (x, y, z + 1)
    } else {
        (x, y, z - 1)
    }
}

/// Dimensions of a light field together with its cell count.
pub struct Dims {
    pub sx: usize,
    pub sy: usize,
    pub sz: usize,
}

impl Dims {
    pub open spec fn n(&self) -> int {
        self.sx * self.sy * self.sz
    }

    pub open spec fn inside(&self, c: (int, int, int)) -> bool {
        in_grid(self.sx as int, self.sy as int, self.sz as int, c.0, c.1, c.2)
    }

    pub open spec fn at(&self, c: (int, int, int)) -> int {
        grid_idx(self.sx as int, self.sz as int, c.0, c.1, c.2)
    }
}

/// Light at a neighbor is at least `v - att` when the neighbor is inside and open.
pub open spec fn nb_ok(l: Seq<u8>, open: Seq<bool>, dm: Dims, c: (int, int, int), v: int, att: int) -> bool {
    dm.inside(c) && open[dm.at(c)] ==> l[dm.at(c)] >= v - att
}

/// Propagation out of cell `c` is saturated: every open neighbor holds at
/// least the cell's light minus `att` whenever the cell's light exceeds `att`.
pub open spec fn closed_at(l: Seq<u8>, open: Seq<bool>, dm: Dims, x: int, y: int, z: int, att: int) -> bool {
    let v = l[dm.at((x, y, z))] as int;
    v > att ==> {
        &&& nb_ok(l, open, dm, nb(x, y, z, 0), v, att)
        &&& nb_ok(l, open, dm, nb(x, y, z, 1), v, att)
        &&& nb_ok(l, open, dm, nb(x, y, z, 2), v, att)
        &&& nb_ok(l, open, dm, nb(x, y, z, 3), v, att)
        &&& nb_ok(l, open, dm, nb(x, y, z, 4), v, att)
        &&& nb_ok(l, open, dm, nb(x, y, z, 5), v, att)
    }
}

/// A light field closed under propagation everywhere in the grid.
pub open spec fn closed(l: Seq<u8>, open: Seq<bool>, dm: Dims, att: int) -> bool {
    &&& l.len() == dm.n()
    &&& forall|x: int, y: int, z: int|
        dm.inside((x, y, z)) ==> #[trigger] closed_at(l, open, dm, x, y, z, att)
}

/// `hi` is pointwise at least `lo`.
pub open spec fn dominates(hi: Seq<u8>, lo: Seq<u8>) -> bool {
    &&& hi.len() == lo.len()
    &&& forall|i: int| 0 <= i < lo.len() ==> lo[i] <= #[trigger] hi[i]
}

/// `l` lies below every closed field that lies above the seeds `s`.
pub open spec fn below_every_closure(l: Seq<u8>, s: Seq<u8>, open: Seq<bool>, dm: Dims, att: int) -> bool {
    forall|f: Seq<u8>| #[trigger] closed(f, open, dm, att) && dominates(f, s) ==> dominates(f, l)
}

/// `l` is the least field above the seeds `s` that is closed under propagation.
pub open spec fn least_closure(l: Seq<u8>, s: Seq<u8>, open: Seq<bool>, dm: Dims, att: int) -> bool {
    &&& dominates(l, s)
    &&& closed(l, open, dm, att)
    &&& below_every_closure(l, s, open, dm, att)
}

/// A queue entry: a cell and the light it carried when queued.
pub open spec fn entry_valid(l: Seq<u8>, dm: Dims, e: (usize, usize, usize, u8)) -> bool {
    &&& dm.inside((e.0 as int, e.1 as int, e.2 as int))
    &&& e.3 <= l[dm.at((e.0 as int, e.1 as int, e.2 as int))]
}

/// Every cell is saturated or waits in the queue with its current light.
pub open spec fn pending_ok(l: Seq<u8>, q: Seq<(usize, usize, usize, u8)>, open: Seq<bool>, dm: Dims, att: int) -> bool {
    forall|x: usize, y: usize, z: usize|
        dm.inside((x as int, y as int, z as int)) ==> #[trigger] closed_at(l, open, dm, x as int, y as int, z as int, att)
            || q.contains((x, y, z, l[dm.at((x as int, y as int, z as int))]))
}

pub open spec fn queue_ok(l: Seq<u8>, q: Seq<(usize, usize, usize, u8)>, dm: Dims) -> bool {
    forall|j: int| 0 <= j < q.len() ==> entry_valid(l, dm, #[trigger] q[j])
}

/// Growing light elsewhere keeps a saturated cell saturated.
pub proof fn lemma_closed_at_mono(l1: Seq<u8>, l2: Seq<u8>, open: Seq<bool>, dm: Dims, x: int, y: int, z: int, att: int)
    requires
        dominates(l2, l1),
        l1.len() == dm.n(),
        dm.inside((x, y, z)),
        l2[dm.at((x, y, z))] == l1[dm.at((x, y, z))],
        closed_at(l1, open, dm, x, y, z, att),
    ensures
        closed_at(l2, open, dm, x, y, z, att),
{
    let v = l1[dm.at((x, y, z))] as int;
    assert forall|d: int| 0 <= d < 6 implies (#[trigger] nb_ok(l1, open, dm, nb(x, y, z, d), v, att) ==> nb_ok(l2, open, dm, nb(x, y, z, d), v, att)) by {
        let c = nb(x, y, z, d);
        if dm.inside(c) {
            lemma_grid_idx_bounds(dm.sx as int, dm.sy as int, dm.sz as int, c.0, c.1, c.2);
        }
    }
    if v > att {
        assert(nb_ok(l1, open, dm, nb(x, y, z, 0), v, att));
        assert(nb_ok(l1, open, dm, nb(x, y, z, 1), v, att));
        assert(nb_ok(l1, open, dm, nb(x, y, z, 2), v, att));
        assert(nb_ok(l1, open, dm, nb(x, y, z, 3), v, att));
        assert(nb_ok(l1, open, dm, nb(x, y, z, 4), v, att));
        assert(nb_ok(l1, open, dm, nb(x, y, z, 5), v, att));
    }
}

/// Exec neighbor of a cell in direction `d`, when it lies inside the grid.
pub fn neighbor(dm: &Dims, x: usize, y: usize, z: usize, d: usize) -> (r: Option<(usize, usize, usize)>)
    requires
        dm.inside((x as int, y as int, z as int)),
        d < 6,
    ensures
        r is Some <==> dm.inside(nb(x as int, y as int, z as int, d as int)),
        r matches Some(c) ==> (c.0 as int, c.1 as int, c.2 as int) == nb(x as int, y as int, z as int, d as int),
{
    if d == 0 {
        if x + 1 < dm.sx { Some((x + 1, y, z)) } else { None }
    } else if d == 1 {
        if x > 0 { Some((x - 1, y, z)) } else { None }
    } else if d == 2 {
        if y + 1 < dm.sy { Some((x, y + 1, z)) } else { None }
    } else if d == 3 {
        if y > 0 { Some((x, y - 1, z)) } else { None }
    } else if d == 4 {
        if z + 1 < dm.sz { Some((x, y, z + 1)) } else { None }
    } else {
        if z > 0 { Some((x, y, z - 1)) } else { None }
    }
}


pub proof fn lemma_contains_push<T>(q: Seq<T>, e: T, t: T)
    ensures
        q.contains(t) ==> q.push(e).contains(t),
        q.push(e).contains(e),
{
    if q.contains(t) {
        let i = choose|i: int| 0 <= i < q.len() && q[i] == t;
        assert(q.push(e)[i] == t);
    }
    assert(q.push(e)[q.len() as int] == e);
}

pub proof fn lemma_contains_drop_first<T>(q: Seq<T>, t: T)
    requires
        q.len() > 0,
        q.contains(t),
        t != q[0],
    ensures
        q.subrange(1, q.len() as int).contains(t),
{
    let i = choose|i: int| 0 <= i < q.len() && q[i] == t;
    assert(i > 0);
    assert(q.subrange(1, q.len() as int)[i - 1] == t);
}

/// Cells other than `c` are saturated or wait in the queue with their light.
pub open spec fn pending_except(l: Seq<u8>, q: Seq<(usize, usize, usize, u8)>, open: Seq<bool>, dm: Dims, att: int, c: (usize, usize, usize)) -> bool {
    forall|x: usize, y: usize, z: usize|
        dm.inside((x as int, y as int, z as int)) && (x, y, z) != c ==> #[trigger] closed_at(l, open, dm, x as int, y as int, z as int, att)
            || q.contains((x, y, z, l[dm.at((x as int, y as int, z as int))]))
}

/// Shared facts about a propagation in progress.
pub open spec fn prop_inv(l: Seq<u8>, q: Seq<(usize, usize, usize, u8)>, s: Seq<u8>, open: Seq<bool>, dm: Dims, att: int) -> bool {
    &&& l.len() == dm.n()
    &&& open.len() == dm.n()
    &&& dm.n() <= usize::MAX
    &&& dominates(l, s)
    &&& below_every_closure(l, s, open, dm, att)
    &&& queue_ok(l, q, dm)
}

/// Relaxes the neighbor of `c` in direction `d` with the light `v` carried
/// out of `c`: an open neighbor darker than `v - att` is raised to it and queued.
fn relax(
    l: &mut Vec<u8>,
    q: &mut VecDeque<(usize, usize, usize, u8)>,
    open: &Vec<bool>,
    dm: &Dims,
    c: (usize, usize, usize),
    d: usize,
    v: u8,
    att: u8,
    Ghost(s): Ghost<Seq<u8>>,
)
    requires
        prop_inv(old(l)@, old(q)@, s, open@, *dm, att as int),
        dm.inside((c.0 as int, c.1 as int, c.2 as int)),
        d < 6,
        att < v,
        v <= old(l)@[dm.at((c.0 as int, c.1 as int, c.2 as int))],
        pending_except(old(l)@, old(q)@, open@, *dm, att as int, c),
    ensures
        prop_inv(final(l)@, final(q)@, s, open@, *dm, att as int),
        dominates(final(l)@, old(l)@),
        final(l)@[dm.at((c.0 as int, c.1 as int, c.2 as int))] == old(l)@[dm.at((c.0 as int, c.1 as int, c.2 as int))],
        nb_ok(final(l)@, open@, *dm, nb(c.0 as int, c.1 as int, c.2 as int, d as int), v as int, att as int),
        pending_except(final(l)@, final(q)@, open@, *dm, att as int, c),
        final(q)@.len() >= old(q)@.len(),
        sum_u8(final(l)@) - sum_u8(old(l)@) >= final(q)@.len() - old(q)@.len(),
        forall|t: (usize, usize, usize, u8)| old(q)@.contains(t) ==> #[trigger] final(q)@.contains(t),
{
    let ghost l0 = l@;
    let ghost q0 = q@;
    let ghost ci = dm.at((c.0 as int, c.1 as int, c.2 as int));
    match neighbor(dm, c.0, c.1, c.2, d) {
        None => {},
        Some(n) => {
            proof {
                lemma_grid_idx_bounds(dm.sx as int, dm.sy as int, dm.sz as int, n.0 as int, n.1 as int, n.2 as int);
                lemma_grid_idx_bounds(dm.sx as int, dm.sy as int, dm.sz as int, c.0 as int, c.1 as int, c.2 as int);
            }
            let i = (n.1 * dm.sz + n.2) * dm.sx + n.0;
            let vnext = v - att;
            if open[i] && l[i] < vnext {
                let ghost ni = i as int;
                proof {
                    if ni == ci {
                        lemma_grid_idx_inj(dm.sx as int, dm.sy as int, dm.sz as int, n.0 as int, n.1 as int, n.2 as int, c.0 as int, c.1 as int, c.2 as int);
                    }
                }
                l.set(i, vnext);
                q.push_back((n.0, n.1, n.2, vnext));
                proof {
                    let l1 = l@;
                    let q1 = q@;
                    let e = (n.0, n.1, n.2, vnext);
                    lemma_sum_u8_update(l0, ni, vnext);
                    assert(dominates(l1, l0));
                    assert(dominates(l1, s));
                    // every closure above the seeds is at least vnext at the neighbor
                    assert forall|f: Seq<u8>| #[trigger] closed(f, open@, *dm, att as int) && dominates(f, s) implies dominates(f, l1) by {
                        assert(dominates(f, l0));
                        assert(closed_at(f, open@, *dm, c.0 as int, c.1 as int, c.2 as int, att as int));
                        assert(l0[ci] <= f[ci]);
                        assert(nb_ok(f, open@, *dm, nb(c.0 as int, c.1 as int, c.2 as int, d as int), f[ci] as int, att as int));
                    }
                    assert forall|j: int| 0 <= j < q1.len() implies entry_valid(l1, *dm, #[trigger] q1[j]) by {
                        if j < q0.len() {
                            assert(entry_valid(l0, *dm, q0[j]));
                            assert(q1[j] == q0[j]);
                            let t = q0[j];
                            lemma_grid_idx_bounds(dm.sx as int, dm.sy as int, dm.sz as int, t.0 as int, t.1 as int, t.2 as int);
                        } else {
                            assert(q1[j] == e);
                        }
                    }
                    assert forall|t: (usize, usize, usize, u8)| q0.contains(t) implies #[trigger] q1.contains(t) by {
                        lemma_contains_push(q0, e, t);
                    }
                    assert forall|x: usize, y: usize, z: usize|
                        dm.inside((x as int, y as int, z as int)) && (x, y, z) != c implies #[trigger] closed_at(l1, open@, *dm, x as int, y as int, z as int, att as int)
                            || q1.contains((x, y, z, l1[dm.at((x as int, y as int, z as int))])) by {
                        let mi = dm.at((x as int, y as int, z as int));
                        lemma_grid_idx_bounds(dm.sx as int, dm.sy as int, dm.sz as int, x as int, y as int, z as int);
                        lemma_contains_push(q0, e, (x, y, z, l0[mi]));
                        if mi == ni {
                            lemma_grid_idx_inj(dm.sx as int, dm.sy as int, dm.sz as int, n.0 as int, n.1 as int, n.2 as int, x as int, y as int, z as int);
                        } else if closed_at(l0, open@, *dm, x as int, y as int, z as int, att as int) {
                            lemma_closed_at_mono(l0, l1, open@, *dm, x as int, y as int, z as int, att as int);
                        }
                    }
                }
            }
        }
    }
    proof {
        lemma_grid_idx_bounds(dm.sx as int, dm.sy as int, dm.sz as int, c.0 as int, c.1 as int, c.2 as int);
        let nc = nb(c.0 as int, c.1 as int, c.2 as int, d as int);
        if dm.inside(nc) {
            lemma_grid_idx_bounds(dm.sx as int, dm.sy as int, dm.sz as int, nc.0, nc.1, nc.2);
        }
    }
}


pub proof fn lemma_nb_ok_mono(l1: Seq<u8>, l2: Seq<u8>, open: Seq<bool>, dm: Dims, c: (int, int, int), v: int, att: int)
    requires
        dominates(l2, l1),
        l1.len() == dm.n(),
        nb_ok(l1, open, dm, c, v, att),
    ensures
        nb_ok(l2, open, dm, c, v, att),
{
    if dm.inside(c) {
        lemma_grid_idx_bounds(dm.sx as int, dm.sy as int, dm.sz as int, c.0, c.1, c.2);
    }
}

pub open spec fn prop_measure(qlen: int, l: Seq<u8>, n: int) -> int {
    qlen + 6 * (255 * n - sum_u8(l))
}

/// Propagates light from the queued cells until nothing changes.
///
/// The result is the least light field above the starting field that is
/// closed under propagation: every open neighbor of a cell brighter than
/// `att` holds at least the cell's light minus `att`.
pub fn propagate(
    l0: Vec<u8>,
    q0: VecDeque<(usize, usize, usize, u8)>,
    open: &Vec<bool>,
    dm: &Dims,
    att: u8,
) -> (r: Vec<u8>)
    requires
        l0@.len() == dm.n(),
        open@.len() == dm.n(),
        dm.n() <= usize::MAX,
        queue_ok(l0@, q0@, *dm),
        pending_ok(l0@, q0@, open@, *dm, att as int),
    ensures
        least_closure(r@, l0@, open@, *dm, att as int),
{
    let mut l = l0;
    let mut q = q0;
    let ghost s = l@;
    proof {
        assert forall|f: Seq<u8>| #[trigger] closed(f, open@, *dm, att as int) && dominates(f, s) implies dominates(f, s) by {}
    }
    while q.len() > 0
        invariant
            prop_inv(l@, q@, s, open@, *dm, att as int),
            pending_ok(l@, q@, open@, *dm, att as int),
        decreases prop_measure(q@.len() as int, l@, dm.n()),
    {
        proof {
            lemma_sum_u8_bounds(l@);
        }
        let ghost l0 = l@;
        let ghost q0 = q@;
        let e = q.pop_front().unwrap();
        let (x, y, z, v) = e;
        let c = (x, y, z);
        let ghost ci = dm.at((x as int, y as int, z as int));
        proof {
            assert(entry_valid(l0, *dm, q0[0]));
            lemma_grid_idx_bounds(dm.sx as int, dm.sy as int, dm.sz as int, x as int, y as int, z as int);
            assert forall|j: int| 0 <= j < q@.len() implies entry_valid(l@, *dm, #[trigger] q@[j]) by {
                assert(q@[j] == q0[j + 1]);
                assert(entry_valid(l0, *dm, q0[j + 1]));
            }
            assert forall|x2: usize, y2: usize, z2: usize|
                dm.inside((x2 as int, y2 as int, z2 as int)) && (x2, y2, z2) != c implies #[trigger] closed_at(l@, open@, *dm, x2 as int, y2 as int, z2 as int, att as int)
                    || q@.contains((x2, y2, z2, l@[dm.at((x2 as int, y2 as int, z2 as int))])) by {
                let t = (x2, y2, z2, l0[dm.at((x2 as int, y2 as int, z2 as int))]);
                assert(closed_at(l0, open@, *dm, x2 as int, y2 as int, z2 as int, att as int) || q0.contains(t));
                if !closed_at(l0, open@, *dm, x2 as int, y2 as int, z2 as int, att as int) {
                    lemma_contains_drop_first(q0, t);
                }
            }
            let tc = (x, y, z, l0[ci]);
            assert(closed_at(l0, open@, *dm, x as int, y as int, z as int, att as int) || q0.contains(tc));
            if !closed_at(l0, open@, *dm, x as int, y as int, z as int, att as int) && tc != e {
                lemma_contains_drop_first(q0, tc);
            }
        }
        // the popped cell is saturated, still queued, or carries its current light
        let ghost c_ok = closed_at(l0, open@, *dm, x as int, y as int, z as int, att as int)
            || q@.contains((x, y, z, l0[ci])) || v == l0[ci];
        assert(c_ok);
        let ghost qa = q@.len();
        if v > att {
            relax(&mut l, &mut q, open, dm, c, 0, v, att, Ghost(s));
            let ghost l1 = l@;
            let ghost q1 = q@.len();
            relax(&mut l, &mut q, open, dm, c, 1, v, att, Ghost(s));
            let ghost l2 = l@;
            let ghost q2 = q@.len();
            assert(sum_u8(l2) - sum_u8(l0) >= q2 - qa);
            relax(&mut l, &mut q, open, dm, c, 2, v, att, Ghost(s));
            let ghost l3 = l@;
            let ghost q3 = q@.len();
            assert(sum_u8(l3) - sum_u8(l0) >= q3 - qa);
            relax(&mut l, &mut q, open, dm, c, 3, v, att, Ghost(s));
            let ghost l4 = l@;
            let ghost q4 = q@.len();
            assert(sum_u8(l4) - sum_u8(l0) >= q4 - qa);
            relax(&mut l, &mut q, open, dm, c, 4, v, att, Ghost(s));
            let ghost l5 = l@;
            let ghost q5 = q@.len();
            assert(sum_u8(l5) - sum_u8(l0) >= q5 - qa);
            relax(&mut l, &mut q, open, dm, c, 5, v, att, Ghost(s));
            assert(sum_u8(l@) - sum_u8(l0) >= q@.len() - qa);
            proof {
                let (xi, yi, zi) = (x as int, y as int, z as int);
                lemma_nb_ok_mono(l1, l@, open@, *dm, nb(xi, yi, zi, 0), v as int, att as int);
                lemma_nb_ok_mono(l2, l@, open@, *dm, nb(xi, yi, zi, 1), v as int, att as int);
                lemma_nb_ok_mono(l3, l@, open@, *dm, nb(xi, yi, zi, 2), v as int, att as int);
                lemma_nb_ok_mono(l4, l@, open@, *dm, nb(xi, yi, zi, 3), v as int, att as int);
                lemma_nb_ok_mono(l5, l@, open@, *dm, nb(xi, yi, zi, 4), v as int, att as int);
            }
        }
        proof {
            lemma_grid_idx_bounds(dm.sx as int, dm.sy as int, dm.sz as int, x as int, y as int, z as int);
            assert(qa == q0.len() - 1);
            assert(sum_u8(l@) - sum_u8(l0) >= q@.len() - qa);
            assert(q@.len() >= qa);
            assert(prop_measure(q@.len() as int, l@, dm.n()) < prop_measure(q0.len() as int, l0, dm.n()));
            assert(prop_measure(q0.len() as int, l0, dm.n()) >= 0);
            lemma_sum_u8_bounds(l@);
            assert(l@[ci] == l0[ci]);
            assert(dominates(l@, l0));
            if closed_at(l0, open@, *dm, x as int, y as int, z as int, att as int) {
                lemma_closed_at_mono(l0, l@, open@, *dm, x as int, y as int, z as int, att as int);
            }
            assert forall|x2: usize, y2: usize, z2: usize|
                dm.inside((x2 as int, y2 as int, z2 as int)) implies #[trigger] closed_at(l@, open@, *dm, x2 as int, y2 as int, z2 as int, att as int)
                    || q@.contains((x2, y2, z2, l@[dm.at((x2 as int, y2 as int, z2 as int))])) by {
                if (x2, y2, z2) == c {
                } else {
                    assert(pending_except(l@, q@, open@, *dm, att as int, c));
                }
            }
        }
    }
    proof {
        assert forall|x: int, y: int, z: int| dm.inside((x, y, z)) implies #[trigger] closed_at(l@, open@, *dm, x, y, z, att as int) by {
            let (ux, uy, uz) = (x as usize, y as usize, z as usize);
            assert(closed_at(l@, open@, *dm, ux as int, uy as int, uz as int, att as int)
                || q@.contains((ux, uy, uz, l@[dm.at((ux as int, uy as int, uz as int))])));
        }
    }
    l
}


// ---------------------------------------------------------------------------
// Beacon light: attenuation depends on the direction light travels.
// Direction codes: 0 = source, 1 = +X, 2 = -X, 3 = +Z, 4 = -Z, 5 = non-cardinal.
// ---------------------------------------------------------------------------

/// Direction code taken by beacon light leaving a cell whose light travels
/// along `dir` into the neighbor in direction `d`.
pub open spec fn beam_next_dir(dir: u8, d: int) -> u8 {
    if dir == 0 {
        if d == 0 { 1 } else if d == 1 { 2 } else if d == 4 { 3 } else if d == 5 { 4 } else { 5 }
    } else if dir == 1 && d == 0 {
        1
    } else if dir == 2 && d == 1 {
        2
    } else if dir == 3 && d == 4 {
        3
    } else if dir == 4 && d == 5 {
        4
    } else {
        5
    }
}

/// Attenuation of that step: 1 while travelling straight along a cardinal
/// direction (or leaving a source horizontally), 32 otherwise.
pub open spec fn beam_att(dir: u8, d: int) -> int {
    if beam_next_dir(dir, d) == 5 { 32 } else { 1 }
}

pub open spec fn beam_closed_at(l: Seq<u8>, dirs: Seq<u8>, open: Seq<bool>, dm: Dims, x: int, y: int, z: int) -> bool {
    let v = l[dm.at((x, y, z))] as int;
    let dir = dirs[dm.at((x, y, z))];
    &&& (v > beam_att(dir, 0) ==> nb_ok(l, open, dm, nb(x, y, z, 0), v, beam_att(dir, 0)))
    &&& (v > beam_att(dir, 1) ==> nb_ok(l, open, dm, nb(x, y, z, 1), v, beam_att(dir, 1)))
    &&& (v > beam_att(dir, 2) ==> nb_ok(l, open, dm, nb(x, y, z, 2), v, beam_att(dir, 2)))
    &&& (v > beam_att(dir, 3) ==> nb_ok(l, open, dm, nb(x, y, z, 3), v, beam_att(dir, 3)))
    &&& (v > beam_att(dir, 4) ==> nb_ok(l, open, dm, nb(x, y, z, 4), v, beam_att(dir, 4)))
    &&& (v > beam_att(dir, 5) ==> nb_ok(l, open, dm, nb(x, y, z, 5), v, beam_att(dir, 5)))
}

/// Beacon light closed under directional propagation everywhere in the grid.
pub open spec fn beam_closed(l: Seq<u8>, dirs: Seq<u8>, open: Seq<bool>, dm: Dims) -> bool {
    &&& l.len() == dm.n()
    &&& dirs.len() == dm.n()
    &&& forall|x: int, y: int, z: int|
        dm.inside((x, y, z)) ==> #[trigger] beam_closed_at(l, dirs, open, dm, x, y, z)
}

/// A beam path: cells `cs` with light `vs` and directions `ds`, where the
/// first cell's light and direction are allowed to start there (`start`),
/// and each later cell is the open neighbor in direction `steps[i]` of the
/// one before, reached from it by one beam step.
pub open spec fn beam_path(start: spec_fn((int, int, int), int, u8) -> bool, open: Seq<bool>, dm: Dims, cs: Seq<(int, int, int)>, vs: Seq<int>, ds: Seq<u8>, steps: Seq<int>) -> bool {
    &&& cs.len() >= 1
    &&& vs.len() == cs.len() && ds.len() == cs.len() && steps.len() == cs.len()
    &&& dm.inside(cs[0]) && start(cs[0], vs[0], ds[0])
    &&& forall|i: int| 1 <= i < cs.len() ==> #[trigger] beam_link(open, dm, cs, vs, ds, steps, i)
}

/// Cell `i` of a beam path follows from cell `i - 1` by one beam step.
pub open spec fn beam_link(open: Seq<bool>, dm: Dims, cs: Seq<(int, int, int)>, vs: Seq<int>, ds: Seq<u8>, steps: Seq<int>, i: int) -> bool {
    let d = steps[i];
    &&& 0 <= d < 6
    &&& cs[i] == nb(cs[i - 1].0, cs[i - 1].1, cs[i - 1].2, d)
    &&& dm.inside(cs[i]) && open[dm.at(cs[i])]
    &&& vs[i - 1] > beam_att(ds[i - 1], d)
    &&& vs[i] == vs[i - 1] - beam_att(ds[i - 1], d)
    &&& ds[i] == beam_next_dir(ds[i - 1], d)
}

/// Beacon light `v` with direction `dir` at cell `c` comes along a beam path
/// from a light allowed to start.
pub open spec fn beam_reached(start: spec_fn((int, int, int), int, u8) -> bool, open: Seq<bool>, dm: Dims, c: (int, int, int), v: int, dir: u8) -> bool {
    exists|cs: Seq<(int, int, int)>, vs: Seq<int>, ds: Seq<u8>, steps: Seq<int>|
        #[trigger] beam_path(start, open, dm, cs, vs, ds, steps) && cs.last() == c && vs.last() == v && ds.last() == dir
}

/// Light allowed to start at a cell is reached by a path of that cell alone.
pub proof fn lemma_beam_reached_start(start: spec_fn((int, int, int), int, u8) -> bool, open: Seq<bool>, dm: Dims, c: (int, int, int), v: int, dir: u8)
    requires
        dm.inside(c),
        start(c, v, dir),
    ensures
        beam_reached(start, open, dm, c, v, dir),
{
    let cs = seq![c];
    let vs = seq![v];
    let ds = seq![dir];
    let steps = seq![0int];
    assert(beam_path(start, open, dm, cs, vs, ds, steps));
}

/// One beam step from reached light at `p` into an open neighbor reaches
/// the neighbor.
pub proof fn lemma_beam_step_reached(start: spec_fn((int, int, int), int, u8) -> bool, open: Seq<bool>, dm: Dims, p: (int, int, int), d: int, w: int, dw: u8)
    requires
        beam_reached(start, open, dm, p, w, dw),
        0 <= d < 6,
        dm.inside(nb(p.0, p.1, p.2, d)),
        open[dm.at(nb(p.0, p.1, p.2, d))],
        w > beam_att(dw, d),
    ensures
        beam_reached(start, open, dm, nb(p.0, p.1, p.2, d), w - beam_att(dw, d), beam_next_dir(dw, d)),
{
    let (cs, vs, ds, steps) = choose|cs: Seq<(int, int, int)>, vs: Seq<int>, ds: Seq<u8>, steps: Seq<int>|
        #[trigger] beam_path(start, open, dm, cs, vs, ds, steps) && cs.last() == p && vs.last() == w && ds.last() == dw;
    let c = nb(p.0, p.1, p.2, d);
    let cs2 = cs.push(c);
    let vs2 = vs.push(w - beam_att(dw, d));
    let ds2 = ds.push(beam_next_dir(dw, d));
    let st2 = steps.push(d);
    let n = cs.len() as int;
    assert forall|i: int| 1 <= i < cs2.len() implies #[trigger] beam_link(open, dm, cs2, vs2, ds2, st2, i) by {
        if i < n {
            assert(beam_link(open, dm, cs, vs, ds, steps, i));
            assert(st2[i] == steps[i]);
            assert(cs2[i] == cs[i] && cs2[i - 1] == cs[i - 1]);
            assert(vs2[i] == vs[i] && vs2[i - 1] == vs[i - 1]);
            assert(ds2[i] == ds[i] && ds2[i - 1] == ds[i - 1]);
        } else {
            assert(cs2[i - 1] == p && vs2[i - 1] == w && ds2[i - 1] == dw);
        }
    }
    assert(beam_path(start, open, dm, cs2, vs2, ds2, st2));
}

/// A queue entry's light and direction are allowed to start at its cell.
pub open spec fn beam_entry_start(start: spec_fn((int, int, int), int, u8) -> bool, e: (usize, usize, usize, u8, u8)) -> bool {
    start((e.0 as int, e.1 as int, e.2 as int), e.3 as int, e.4)
}

/// Every queued light is allowed to start where it is queued.
pub open spec fn beam_entries_start(q: Seq<(usize, usize, usize, u8, u8)>, start: spec_fn((int, int, int), int, u8) -> bool) -> bool {
    forall|j: int| 0 <= j < q.len() ==> beam_entry_start(start, #[trigger] q[j])
}

/// A queue entry's light and direction come from the start by beam steps.
pub open spec fn beam_entry_reached(start: spec_fn((int, int, int), int, u8) -> bool, open: Seq<bool>, dm: Dims, e: (usize, usize, usize, u8, u8)) -> bool {
    beam_reached(start, open, dm, (e.0 as int, e.1 as int, e.2 as int), e.3 as int, e.4)
}

/// Every cell's light and direction come by beam steps from a light
/// allowed to start.
pub open spec fn beam_cells_reached(l: Seq<u8>, dirs: Seq<u8>, start: spec_fn((int, int, int), int, u8) -> bool, open: Seq<bool>, dm: Dims) -> bool {
    forall|x: int, y: int, z: int| dm.inside((x, y, z)) ==>
        #[trigger] beam_reached(start, open, dm, (x, y, z), l[dm.at((x, y, z))] as int, dirs[dm.at((x, y, z))])
}

pub open spec fn beam_entry_valid(l: Seq<u8>, dm: Dims, e: (usize, usize, usize, u8, u8)) -> bool {
    &&& dm.inside((e.0 as int, e.1 as int, e.2 as int))
    &&& e.3 <= l[dm.at((e.0 as int, e.1 as int, e.2 as int))]
}

pub open spec fn beam_queue_ok(l: Seq<u8>, q: Seq<(usize, usize, usize, u8, u8)>, dm: Dims) -> bool {
    forall|j: int| 0 <= j < q.len() ==> beam_entry_valid(l, dm, #[trigger] q[j])
}

pub open spec fn beam_pending_except(l: Seq<u8>, dirs: Seq<u8>, q: Seq<(usize, usize, usize, u8, u8)>, open: Seq<bool>, dm: Dims, c: Option<(usize, usize, usize)>) -> bool {
    forall|x: usize, y: usize, z: usize|
        dm.inside((x as int, y as int, z as int)) && c != Some((x, y, z)) ==> #[trigger] beam_closed_at(l, dirs, open, dm, x as int, y as int, z as int)
            || q.contains((x, y, z, l[dm.at((x as int, y as int, z as int))], dirs[dm.at((x as int, y as int, z as int))]))
}

/// Facts kept while beacon light spreads from the starting field `s`.
pub open spec fn beam_inv(l: Seq<u8>, dirs: Seq<u8>, q: Seq<(usize, usize, usize, u8, u8)>, s: Seq<u8>, sd: Seq<u8>, start: spec_fn((int, int, int), int, u8) -> bool, open: Seq<bool>, dm: Dims) -> bool {
    &&& l.len() == dm.n()
    &&& dirs.len() == dm.n()
    &&& open.len() == dm.n()
    &&& dm.n() <= usize::MAX
    &&& dominates(l, s)
    &&& below_every_closure(l, s, open, dm, 1)
    &&& forall|i: int| 0 <= i < s.len() && l[i] == s[i] ==> #[trigger] dirs[i] == sd[i]
    &&& forall|i: int| 0 <= i < s.len() && l[i] != s[i] ==> #[trigger] open[i]
    &&& beam_queue_ok(l, q, dm)
    &&& forall|j: int| 0 <= j < q.len() ==> beam_entry_reached(start, open, dm, #[trigger] q[j])
    &&& beam_cells_reached(l, dirs, start, open, dm)
}

pub proof fn lemma_beam_closed_at_mono(l1: Seq<u8>, l2: Seq<u8>, d1: Seq<u8>, d2: Seq<u8>, open: Seq<bool>, dm: Dims, x: int, y: int, z: int)
    requires
        dominates(l2, l1),
        l1.len() == dm.n(),
        dm.inside((x, y, z)),
        l2[dm.at((x, y, z))] == l1[dm.at((x, y, z))],
        d2[dm.at((x, y, z))] == d1[dm.at((x, y, z))],
        beam_closed_at(l1, d1, open, dm, x, y, z),
    ensures
        beam_closed_at(l2, d2, open, dm, x, y, z),
{
    let v = l1[dm.at((x, y, z))] as int;
    let dir = d1[dm.at((x, y, z))];
    lemma_grid_idx_bounds(dm.sx as int, dm.sy as int, dm.sz as int, x, y, z);
    assert forall|d: int| 0 <= d < 6 && v > beam_att(dir, d) implies nb_ok(l2, open, dm, #[trigger] nb(x, y, z, d), v, beam_att(dir, d)) by {
        if d == 0 { assert(nb_ok(l1, open, dm, nb(x, y, z, 0), v, beam_att(dir, 0))); }
        if d == 1 { assert(nb_ok(l1, open, dm, nb(x, y, z, 1), v, beam_att(dir, 1))); }
        if d == 2 { assert(nb_ok(l1, open, dm, nb(x, y, z, 2), v, beam_att(dir, 2))); }
        if d == 3 { assert(nb_ok(l1, open, dm, nb(x, y, z, 3), v, beam_att(dir, 3))); }
        if d == 4 { assert(nb_ok(l1, open, dm, nb(x, y, z, 4), v, beam_att(dir, 4))); }
        if d == 5 { assert(nb_ok(l1, open, dm, nb(x, y, z, 5), v, beam_att(dir, 5))); }
        lemma_nb_ok_mono(l1, l2, open, dm, nb(x, y, z, d), v, beam_att(dir, d));
    }
    assert(v > beam_att(dir, 0) ==> nb_ok(l2, open, dm, nb(x, y, z, 0), v, beam_att(dir, 0)));
    assert(v > beam_att(dir, 1) ==> nb_ok(l2, open, dm, nb(x, y, z, 1), v, beam_att(dir, 1)));
    assert(v > beam_att(dir, 2) ==> nb_ok(l2, open, dm, nb(x, y, z, 2), v, beam_att(dir, 2)));
    assert(v > beam_att(dir, 3) ==> nb_ok(l2, open, dm, nb(x, y, z, 3), v, beam_att(dir, 3)));
    assert(v > beam_att(dir, 4) ==> nb_ok(l2, open, dm, nb(x, y, z, 4), v, beam_att(dir, 4)));
    assert(v > beam_att(dir, 5) ==> nb_ok(l2, open, dm, nb(x, y, z, 5), v, beam_att(dir, 5)));
}

/// Exec direction transition and attenuation for a beacon step.
fn beam_step(dir: u8, d: usize) -> (r: (u8, u8))
    requires
        d < 6,
    ensures
        r.0 == beam_next_dir(dir, d as int),
        r.1 as int == beam_att(dir, d as int),
{
    match dir {
        0 => {
            if d == 0 { (1, 1) } else if d == 1 { (2, 1) } else if d == 4 { (3, 1) } else if d == 5 { (4, 1) } else { (5, 32) }
        },
        1 => if d == 0 { (1, 1) } else { (5, 32) },
        2 => if d == 1 { (2, 1) } else { (5, 32) },
        3 => if d == 4 { (3, 1) } else { (5, 32) },
        4 => if d == 5 { (4, 1) } else { (5, 32) },
        _ => (5, 32),
    }
}

fn beam_relax(
    l: &mut Vec<u8>,
    dirs: &mut Vec<u8>,
    q: &mut VecDeque<(usize, usize, usize, u8, u8)>,
    open: &Vec<bool>,
    dm: &Dims,
    c: (usize, usize, usize),
    d: usize,
    v: u8,
    dir: u8,
    Ghost(s): Ghost<Seq<u8>>,
    Ghost(sd): Ghost<Seq<u8>>,
    Ghost(start): Ghost<spec_fn((int, int, int), int, u8) -> bool>,
)
    requires
        beam_inv(old(l)@, old(dirs)@, old(q)@, s, sd, start, open@, *dm),
        dm.inside((c.0 as int, c.1 as int, c.2 as int)),
        d < 6,
        v <= old(l)@[dm.at((c.0 as int, c.1 as int, c.2 as int))],
        beam_reached(start, open@, *dm, (c.0 as int, c.1 as int, c.2 as int), v as int, dir),
        beam_pending_except(old(l)@, old(dirs)@, old(q)@, open@, *dm, Some(c)),
    ensures
        beam_inv(final(l)@, final(dirs)@, final(q)@, s, sd, start, open@, *dm),
        dominates(final(l)@, old(l)@),
        final(l)@[dm.at((c.0 as int, c.1 as int, c.2 as int))] == old(l)@[dm.at((c.0 as int, c.1 as int, c.2 as int))],
        final(dirs)@[dm.at((c.0 as int, c.1 as int, c.2 as int))] == old(dirs)@[dm.at((c.0 as int, c.1 as int, c.2 as int))],
        v > beam_att(dir, d as int) ==> nb_ok(final(l)@, open@, *dm, nb(c.0 as int, c.1 as int, c.2 as int, d as int), v as int, beam_att(dir, d as int)),
        beam_pending_except(final(l)@, final(dirs)@, final(q)@, open@, *dm, Some(c)),
        final(q)@.len() >= old(q)@.len(),
        sum_u8(final(l)@) - sum_u8(old(l)@) >= final(q)@.len() - old(q)@.len(),
        forall|t: (usize, usize, usize, u8, u8)| old(q)@.contains(t) ==> #[trigger] final(q)@.contains(t),
{
    let ghost l0 = l@;
    let ghost d0 = dirs@;
    let ghost q0 = q@;
    let ghost ci = dm.at((c.0 as int, c.1 as int, c.2 as int));
    let (new_dir, att) = beam_step(dir, d);
    match neighbor(dm, c.0, c.1, c.2, d) {
        None => {},
        Some(n) => {
            proof {
                lemma_grid_idx_bounds(dm.sx as int, dm.sy as int, dm.sz as int, n.0 as int, n.1 as int, n.2 as int);
                lemma_grid_idx_bounds(dm.sx as int, dm.sy as int, dm.sz as int, c.0 as int, c.1 as int, c.2 as int);
            }
            let i = (n.1 * dm.sz + n.2) * dm.sx + n.0;
            if v > att {
                let vnext = v - att;
                if open[i] && l[i] < vnext {
                    let ghost ni = i as int;
                    proof {
                        if ni == ci {
                            lemma_grid_idx_inj(dm.sx as int, dm.sy as int, dm.sz as int, n.0 as int, n.1 as int, n.2 as int, c.0 as int, c.1 as int, c.2 as int);
                        }
                    }
                    l.set(i, vnext);
                    dirs.set(i, new_dir);
                    q.push_back((n.0, n.1, n.2, vnext, new_dir));
                    proof {
                        let l1 = l@;
                        let d1 = dirs@;
                        let q1 = q@;
                        let e = (n.0, n.1, n.2, vnext, new_dir);
                        lemma_sum_u8_update(l0, ni, vnext);
                        assert(dominates(l1, l0));
                        assert(dominates(l1, s));
                        assert forall|f: Seq<u8>| #[trigger] closed(f, open@, *dm, 1) && dominates(f, s) implies dominates(f, l1) by {
                            assert(dominates(f, l0));
                            assert(closed_at(f, open@, *dm, c.0 as int, c.1 as int, c.2 as int, 1));
                            assert(l0[ci] <= f[ci]);
                            assert(nb_ok(f, open@, *dm, nb(c.0 as int, c.1 as int, c.2 as int, d as int), f[ci] as int, 1));
                        }
                        assert forall|k: int| 0 <= k < s.len() && l1[k] == s[k] implies #[trigger] d1[k] == sd[k] by {
                            if k != ni {
                                assert(l0[k] == s[k]);
                            }
                        }
                        assert forall|k: int| 0 <= k < s.len() && l1[k] != s[k] implies #[trigger] open@[k] by {
                            if k != ni {
                                assert(l0[k] != s[k]);
                            }
                        }
                        assert forall|j: int| 0 <= j < q1.len() implies beam_entry_valid(l1, *dm, #[trigger] q1[j]) by {
                            if j < q0.len() {
                                assert(beam_entry_valid(l0, *dm, q0[j]));
                                assert(q1[j] == q0[j]);
                                let t = q0[j];
                                lemma_grid_idx_bounds(dm.sx as int, dm.sy as int, dm.sz as int, t.0 as int, t.1 as int, t.2 as int);
                            } else {
                                assert(q1[j] == e);
                            }
                        }
                        assert forall|t: (usize, usize, usize, u8, u8)| q0.contains(t) implies #[trigger] q1.contains(t) by {
                            lemma_contains_push(q0, e, t);
                        }
                        let cc = (c.0 as int, c.1 as int, c.2 as int);
                        let nn = (n.0 as int, n.1 as int, n.2 as int);
                        assert(dm.at(nn) == ni);
                        lemma_beam_step_reached(start, open@, *dm, cc, d as int, v as int, dir);
                        assert(beam_reached(start, open@, *dm, nn, vnext as int, new_dir));
                        assert forall|j: int| 0 <= j < q1.len() implies beam_entry_reached(start, open@, *dm, #[trigger] q1[j]) by {
                            if j < q0.len() {
                                assert(q1[j] == q0[j]);
                            } else {
                                assert(q1[j] == e);
                            }
                        }
                        assert forall|x: int, y: int, z: int| dm.inside((x, y, z)) implies
                            #[trigger] beam_reached(start, open@, *dm, (x, y, z), l1[dm.at((x, y, z))] as int, d1[dm.at((x, y, z))]) by {
                            lemma_grid_idx_bounds(dm.sx as int, dm.sy as int, dm.sz as int, x, y, z);
                            if dm.at((x, y, z)) == ni {
                                lemma_grid_idx_inj(dm.sx as int, dm.sy as int, dm.sz as int, nn.0, nn.1, nn.2, x, y, z);
                            } else {
                                assert(beam_reached(start, open@, *dm, (x, y, z), l0[dm.at((x, y, z))] as int, d0[dm.at((x, y, z))]));
                            }
                        }
                        assert forall|x: usize, y: usize, z: usize|
                            dm.inside((x as int, y as int, z as int)) && Some(c) != Some((x, y, z)) implies #[trigger] beam_closed_at(l1, d1, open@, *dm, x as int, y as int, z as int)
                                || q1.contains((x, y, z, l1[dm.at((x as int, y as int, z as int))], d1[dm.at((x as int, y as int, z as int))])) by {
                            let mi = dm.at((x as int, y as int, z as int));
                            lemma_grid_idx_bounds(dm.sx as int, dm.sy as int, dm.sz as int, x as int, y as int, z as int);
                            lemma_contains_push(q0, e, (x, y, z, l0[mi], d0[mi]));
                            if mi == ni {
                                lemma_grid_idx_inj(dm.sx as int, dm.sy as int, dm.sz as int, n.0 as int, n.1 as int, n.2 as int, x as int, y as int, z as int);
                            } else if beam_closed_at(l0, d0, open@, *dm, x as int, y as int, z as int) {
                                lemma_beam_closed_at_mono(l0, l1, d0, d1, open@, *dm, x as int, y as int, z as int);
                            }
                        }
                    }
                }
            }
        }
    }
    proof {
        lemma_grid_idx_bounds(dm.sx as int, dm.sy as int, dm.sz as int, c.0 as int, c.1 as int, c.2 as int);
        let nc = nb(c.0 as int, c.1 as int, c.2 as int, d as int);
        if dm.inside(nc) {
            lemma_grid_idx_bounds(dm.sx as int, dm.sy as int, dm.sz as int, nc.0, nc.1, nc.2);
        }
    }
}

/// Spreads beacon light from the queued cells until nothing changes.
///
/// On return the light is closed under directional propagation for the
/// directions recorded per cell, it never lies below the starting light,
/// cells whose light changed are open and carry a new direction only where
/// their light changed, and it lies below every field above the start that is
/// closed under propagation with attenuation 1 (no step attenuates less).
pub fn propagate_beam(
    l0: Vec<u8>,
    dirs0: Vec<u8>,
    q0: VecDeque<(usize, usize, usize, u8, u8)>,
    open: &Vec<bool>,
    dm: &Dims,
    Ghost(start): Ghost<spec_fn((int, int, int), int, u8) -> bool>,
) -> (r: (Vec<u8>, Vec<u8>))
    requires
        l0@.len() == dm.n(),
        dirs0@.len() == dm.n(),
        open@.len() == dm.n(),
        dm.n() <= usize::MAX,
        beam_queue_ok(l0@, q0@, *dm),
        beam_pending_except(l0@, dirs0@, q0@, open@, *dm, None),
        beam_entries_start(q0@, start),
        forall|x: int, y: int, z: int| #[trigger] dm.inside((x, y, z)) ==> start((x, y, z), l0@[dm.at((x, y, z))] as int, dirs0@[dm.at((x, y, z))]),
    ensures
        beam_closed(r.0@, r.1@, open@, *dm),
        dominates(r.0@, l0@),
        below_every_closure(r.0@, l0@, open@, *dm, 1),
        r.1@.len() == dm.n(),
        forall|i: int| 0 <= i < l0@.len() && r.0@[i] == l0@[i] ==> #[trigger] r.1@[i] == dirs0@[i],
        forall|i: int| 0 <= i < l0@.len() && r.0@[i] != l0@[i] ==> #[trigger] open@[i],
        beam_cells_reached(r.0@, r.1@, start, open@, *dm),
{
    let mut l = l0;
    let mut dirs = dirs0;
    let mut q = q0;
    let ghost s = l@;
    let ghost sd = dirs@;
    proof {
        assert forall|f: Seq<u8>| #[trigger] closed(f, open@, *dm, 1) && dominates(f, s) implies dominates(f, s) by {}
        assert forall|j: int| 0 <= j < q@.len() implies beam_entry_reached(start, open@, *dm, #[trigger] q@[j]) by {
            let t = q@[j];
            assert(beam_entry_valid(l@, *dm, t));
            assert(beam_entry_start(start, t));
            lemma_beam_reached_start(start, open@, *dm, (t.0 as int, t.1 as int, t.2 as int), t.3 as int, t.4);
        }
        assert forall|x: int, y: int, z: int| dm.inside((x, y, z)) implies
            #[trigger] beam_reached(start, open@, *dm, (x, y, z), l@[dm.at((x, y, z))] as int, dirs@[dm.at((x, y, z))]) by {
            lemma_beam_reached_start(start, open@, *dm, (x, y, z), l@[dm.at((x, y, z))] as int, dirs@[dm.at((x, y, z))]);
        }
    }
    while q.len() > 0
        invariant
            beam_inv(l@, dirs@, q@, s, sd, start, open@, *dm),
            beam_pending_except(l@, dirs@, q@, open@, *dm, None),
        decreases prop_measure(q@.len() as int, l@, dm.n()),
    {
        proof {
            lemma_sum_u8_bounds(l@);
        }
        let ghost l0 = l@;
        let ghost d0 = dirs@;
        let ghost q0 = q@;
        let e = q.pop_front().unwrap();
        let (x, y, z, v, dir) = e;
        let c = (x, y, z);
        let ghost ci = dm.at((x as int, y as int, z as int));
        proof {
            assert(beam_entry_valid(l0, *dm, q0[0]));
            lemma_grid_idx_bounds(dm.sx as int, dm.sy as int, dm.sz as int, x as int, y as int, z as int);
            assert forall|j: int| 0 <= j < q@.len() implies beam_entry_valid(l@, *dm, #[trigger] q@[j]) by {
                assert(q@[j] == q0[j + 1]);
                assert(beam_entry_valid(l0, *dm, q0[j + 1]));
            }
            assert forall|j: int| 0 <= j < q@.len() implies beam_entry_reached(start, open@, *dm, #[trigger] q@[j]) by {
                assert(q@[j] == q0[j + 1]);
                assert(beam_entry_reached(start, open@, *dm, q0[j + 1]));
            }
            assert(beam_entry_reached(start, open@, *dm, q0[0]));
            assert forall|x2: usize, y2: usize, z2: usize|
                dm.inside((x2 as int, y2 as int, z2 as int)) && Some(c) != Some((x2, y2, z2)) implies #[trigger] beam_closed_at(l@, dirs@, open@, *dm, x2 as int, y2 as int, z2 as int)
                    || q@.contains((x2, y2, z2, l@[dm.at((x2 as int, y2 as int, z2 as int))], dirs@[dm.at((x2 as int, y2 as int, z2 as int))])) by {
                let mi = dm.at((x2 as int, y2 as int, z2 as int));
                let t = (x2, y2, z2, l0[mi], d0[mi]);
                assert(beam_closed_at(l0, d0, open@, *dm, x2 as int, y2 as int, z2 as int) || q0.contains(t));
                if !beam_closed_at(l0, d0, open@, *dm, x2 as int, y2 as int, z2 as int) {
                    lemma_contains_drop_first(q0, t);
                }
            }
            let tc = (x, y, z, l0[ci], d0[ci]);
            assert(beam_closed_at(l0, d0, open@, *dm, x as int, y as int, z as int) || q0.contains(tc));
            if !beam_closed_at(l0, d0, open@, *dm, x as int, y as int, z as int) && tc != e {
                lemma_contains_drop_first(q0, tc);
            }
        }
        let ghost qa = q@.len();
        beam_relax(&mut l, &mut dirs, &mut q, open, dm, c, 0, v, dir, Ghost(s), Ghost(sd), Ghost(start));
        let ghost l1 = l@;
        let ghost q1 = q@.len();
        beam_relax(&mut l, &mut dirs, &mut q, open, dm, c, 1, v, dir, Ghost(s), Ghost(sd), Ghost(start));
        let ghost l2 = l@;
        let ghost q2 = q@.len();
        assert(sum_u8(l2) - sum_u8(l0) >= q2 - qa);
        beam_relax(&mut l, &mut dirs, &mut q, open, dm, c, 2, v, dir, Ghost(s), Ghost(sd), Ghost(start));
        let ghost l3 = l@;
        let ghost q3 = q@.len();
        assert(sum_u8(l3) - sum_u8(l0) >= q3 - qa);
        beam_relax(&mut l, &mut dirs, &mut q, open, dm, c, 3, v, dir, Ghost(s), Ghost(sd), Ghost(start));
        let ghost l4 = l@;
        let ghost q4 = q@.len();
        assert(sum_u8(l4) - sum_u8(l0) >= q4 - qa);
        beam_relax(&mut l, &mut dirs, &mut q, open, dm, c, 4, v, dir, Ghost(s), Ghost(sd), Ghost(start));
        let ghost l5 = l@;
        let ghost q5 = q@.len();
        assert(sum_u8(l5) - sum_u8(l0) >= q5 - qa);
        beam_relax(&mut l, &mut dirs, &mut q, open, dm, c, 5, v, dir, Ghost(s), Ghost(sd), Ghost(start));
        proof {
            let (xi, yi, zi) = (x as int, y as int, z as int);
            lemma_grid_idx_bounds(dm.sx as int, dm.sy as int, dm.sz as int, xi, yi, zi);
            assert(sum_u8(l@) - sum_u8(l0) >= q@.len() - qa);
            lemma_sum_u8_bounds(l@);
            assert(prop_measure(q@.len() as int, l@, dm.n()) < prop_measure(q0.len() as int, l0, dm.n()));
            if v > beam_att(dir, 0) { lemma_nb_ok_mono(l1, l@, open@, *dm, nb(xi, yi, zi, 0), v as int, beam_att(dir, 0)); }
            if v > beam_att(dir, 1) { lemma_nb_ok_mono(l2, l@, open@, *dm, nb(xi, yi, zi, 1), v as int, beam_att(dir, 1)); }
            if v > beam_att(dir, 2) { lemma_nb_ok_mono(l3, l@, open@, *dm, nb(xi, yi, zi, 2), v as int, beam_att(dir, 2)); }
            if v > beam_att(dir, 3) { lemma_nb_ok_mono(l4, l@, open@, *dm, nb(xi, yi, zi, 3), v as int, beam_att(dir, 3)); }
            if v > beam_att(dir, 4) { lemma_nb_ok_mono(l5, l@, open@, *dm, nb(xi, yi, zi, 4), v as int, beam_att(dir, 4)); }
            assert(l@[ci] == l0[ci]);
            assert(dirs@[ci] == d0[ci]);
            assert(dominates(l@, l0));
            if beam_closed_at(l0, d0, open@, *dm, xi, yi, zi) {
                lemma_beam_closed_at_mono(l0, l@, d0, dirs@, open@, *dm, xi, yi, zi);
            }
            assert forall|x2: usize, y2: usize, z2: usize|
                dm.inside((x2 as int, y2 as int, z2 as int)) && None::<(usize, usize, usize)> != Some((x2, y2, z2)) implies #[trigger] beam_closed_at(l@, dirs@, open@, *dm, x2 as int, y2 as int, z2 as int)
                    || q@.contains((x2, y2, z2, l@[dm.at((x2 as int, y2 as int, z2 as int))], dirs@[dm.at((x2 as int, y2 as int, z2 as int))])) by {
                if (x2, y2, z2) == c {
                } else {
                    assert(beam_pending_except(l@, dirs@, q@, open@, *dm, Some(c)));
                }
            }
        }
    }
    proof {
        assert forall|x: int, y: int, z: int| dm.inside((x, y, z)) implies #[trigger] beam_closed_at(l@, dirs@, open@, *dm, x, y, z) by {
            let (ux, uy, uz) = (x as usize, y as usize, z as usize);
            assert(beam_closed_at(l@, dirs@, open@, *dm, ux as int, uy as int, uz as int)
                || q@.contains((ux, uy, uz, l@[dm.at((ux as int, uy as int, uz as int))], dirs@[dm.at((ux as int, uy as int, uz as int))])));
        }
    }
    (l, dirs)
}

} // verus!
