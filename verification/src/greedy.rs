//! Greedy rectangle decomposition of a face mask, the core of greedy
//! meshing: a slice of visible faces is covered by rectangles of equal
//! material and light, found by a row-major sweep.
use vstd::prelude::*;
use crate::types::MaterialId;

verus! {

/// What a face in the mask shows: its material and its light.
pub type FaceCode = (MaterialId, u8);

/// A rectangle of `w` by `h` cells at `(x, y)` of one face code.
#[derive(Clone, Copy, Debug, PartialEq, Eq, Structural)]
pub struct GreedyRect {
    pub x: usize,
    pub y: usize,
    pub w: usize,
    pub h: usize,
    pub material: MaterialId,
    pub light: u8,
}

impl GreedyRect {
    pub open spec fn code(self) -> FaceCode {
        (self.material, self.light)
    }

    pub open spec fn contains(self, cx: int, cy: int) -> bool {
        self.x <= cx < self.x + self.w && self.y <= cy < self.y + self.h
    }
}

/// Position of cell `(cx, cy)` in a row-major mask of the given width.
pub open spec fn cell(width: int, cx: int, cy: int) -> int {
    cy * width + cx
}

/// Cell `(cx, cy)` lies in a `width` by `height` mask.
pub open spec fn in_mask(width: int, height: int, cx: int, cy: int) -> bool {
    0 <= cx < width && 0 <= cy < height
}

/// One of the first `n` rectangles covers `(cx, cy)`.
pub open spec fn covered(rs: Seq<GreedyRect>, n: int, cx: int, cy: int) -> bool {
    exists|k: int| 0 <= k < n && (#[trigger] rs[k]).contains(cx, cy)
}

/// Cell `(cx, cy)` shows `code` and none of the first `n` rectangles covers it.
pub open spec fn free(mask: Seq<Option<FaceCode>>, width: int, rs: Seq<GreedyRect>, n: int, cx: int, cy: int, code: FaceCode) -> bool {
    &&& mask[cell(width, cx, cy)] == Some(code)
    &&& !covered(rs, n, cx, cy)
}

/// Rectangle `k` is the one the sweep takes after the first `k`: it starts
/// at the first cell (row-major) that shows a face and is not yet covered,
/// runs right while cells show the same face and are free, then grows down
/// while whole rows of that width do; all its cells are free.
pub open spec fn greedy_step(width: int, height: int, mask: Seq<Option<FaceCode>>, rs: Seq<GreedyRect>, k: int) -> bool {
    let r = rs[k];
    &&& r.w >= 1 && r.h >= 1
    &&& r.x + r.w <= width && r.y + r.h <= height
    &&& forall|cx: int, cy: int| #[trigger] r.contains(cx, cy) ==> free(mask, width, rs, k, cx, cy, r.code())
    &&& forall|cx: int, cy: int| in_mask(width, height, cx, cy) && (cy < r.y || (cy == r.y && cx < r.x))
        ==> #[trigger] mask[cell(width, cx, cy)] is None || covered(rs, k, cx, cy)
    &&& r.x + r.w == width || !free(mask, width, rs, k, r.x + r.w, r.y as int, r.code())
    &&& r.y + r.h == height || exists|i: int| 0 <= i < r.w && !#[trigger] free(mask, width, rs, k, r.x + i, r.y + r.h, r.code())
}

/// `rs` is the sweep's decomposition of the mask: each rectangle is the
/// sweep's next one, and together they cover every cell that shows a face.
pub open spec fn greedy_decomposition(width: int, height: int, mask: Seq<Option<FaceCode>>, rs: Seq<GreedyRect>) -> bool {
    &&& forall|k: int| 0 <= k < rs.len() ==> greedy_step(width, height, mask, rs, k)
    &&& forall|cx: int, cy: int| in_mask(width, height, cx, cy) && #[trigger] mask[cell(width, cx, cy)] is Some
        ==> covered(rs, rs.len() as int, cx, cy)
}

proof fn lemma_cell_bounds(width: int, height: int, cx: int, cy: int)
    requires
        in_mask(width, height, cx, cy),
    ensures
        0 <= cell(width, cx, cy) < width * height,
{
    assert(0 <= cy * width + cx < width * height) by (nonlinear_arith)
        requires
            0 <= cx < width,
            0 <= cy < height,
    ;
}

proof fn lemma_cell_inj(width: int, height: int, x1: int, y1: int, x2: int, y2: int)
    requires
        in_mask(width, height, x1, y1),
        in_mask(width, height, x2, y2),
        cell(width, x1, y1) == cell(width, x2, y2),
    ensures
        x1 == x2 && y1 == y2,
{
    if y1 < y2 {
        assert(y1 * width + width <= y2 * width) by (nonlinear_arith)
            requires
                y1 + 1 <= y2,
                width >= 0,
        ;
    } else if y1 > y2 {
        assert(y2 * width + width <= y1 * width) by (nonlinear_arith)
            requires
                y2 + 1 <= y1,
                width >= 0,
        ;
    }
}

proof fn lemma_row_bound(width: int, height: int, y: int)
    requires
        0 <= y < height,
        0 <= width,
    ensures
        y * width + width <= width * height,
        0 <= y * width,
{
    assert(y * width + width <= width * height && 0 <= y * width) by (nonlinear_arith)
        requires
            0 <= y < height,
            0 <= width,
    ;
}

fn same_code(a: Option<FaceCode>, code: FaceCode) -> (r: bool)
    ensures
        r == (a == Some(code)),
{
    match a {
        Some((m, l)) => m.0 == code.0.0 && l == code.1,
        None => false,
    }
}

/// Covering by the first `n + 1` rectangles: by the first `n`, or by the last.
proof fn lemma_covered_push(rs: Seq<GreedyRect>, n: int, cx: int, cy: int)
    requires
        0 <= n < rs.len(),
    ensures
        covered(rs, n + 1, cx, cy) == (covered(rs, n, cx, cy) || rs[n].contains(cx, cy)),
{
    if covered(rs, n + 1, cx, cy) && !rs[n].contains(cx, cy) {
        let k = choose|k: int| 0 <= k < n + 1 && (#[trigger] rs[k]).contains(cx, cy);
        assert(k < n);
    }
}

/// Appending rectangles leaves what the first `n` cover unchanged.
proof fn lemma_covered_prefix(rs: Seq<GreedyRect>, ts: Seq<GreedyRect>, n: int, cx: int, cy: int)
    requires
        0 <= n <= rs.len(),
        n <= ts.len(),
        forall|k: int| 0 <= k < n ==> rs[k] == ts[k],
    ensures
        covered(rs, n, cx, cy) == covered(ts, n, cx, cy),
{
    if covered(rs, n, cx, cy) {
        let k = choose|k: int| 0 <= k < n && (#[trigger] rs[k]).contains(cx, cy);
        assert(ts[k].contains(cx, cy));
    }
    if covered(ts, n, cx, cy) {
        let k = choose|k: int| 0 <= k < n && (#[trigger] ts[k]).contains(cx, cy);
        assert(rs[k].contains(cx, cy));
    }
}

proof fn lemma_step_stable(width: int, height: int, mask: Seq<Option<FaceCode>>, rs: Seq<GreedyRect>, ts: Seq<GreedyRect>, k: int)
    requires
        0 <= k < rs.len(),
        rs.len() <= ts.len(),
        forall|j: int| 0 <= j < rs.len() ==> rs[j] == ts[j],
        greedy_step(width, height, mask, rs, k),
    ensures
        greedy_step(width, height, mask, ts, k),
{
    assert forall|cx: int, cy: int| covered(rs, k, cx, cy) == covered(ts, k, cx, cy) by {
        lemma_covered_prefix(rs, ts, k, cx, cy);
    }
    let r = rs[k];
    if r.y + r.h != height {
        let i = choose|i: int| 0 <= i < r.w && !#[trigger] free(mask, width, rs, k, r.x + i, r.y + r.h, r.code());
        assert(!free(mask, width, ts, k, r.x + i, r.y + r.h, r.code()));
    }
}

/// Covers the faces of a `width` by `height` mask (row-major) with
/// rectangles of equal face code, sweeping row by row: from each face not
/// yet covered, a rectangle runs right as far as it can, then down as far
/// as whole rows allow.
pub fn greedy_rects(width: usize, height: usize, mask: &Vec<Option<FaceCode>>) -> (rs: Vec<GreedyRect>)
    requires
        mask@.len() == width * height,
    ensures
        greedy_decomposition(width as int, height as int, mask@, rs@),
{
    let ghost wd = width as int;
    let ghost ht = height as int;
    let n = mask.len();
    let mut used: Vec<bool> = Vec::new();
    let mut t: usize = 0;
    while t < n
        invariant
            n == width * height,
            t <= n,
            used@.len() == t,
            forall|j: int| 0 <= j < t ==> !(#[trigger] used@[j]),
        decreases n - t,
    {
        used.push(false);
        t = t + 1;
    }
    let mut rs: Vec<GreedyRect> = Vec::new();
    proof {
        assert forall|cx: int, cy: int| in_mask(wd, ht, cx, cy) implies #[trigger] used@[cell(wd, cx, cy)] == covered(rs@, rs@.len() as int, cx, cy) by {
            lemma_cell_bounds(wd, ht, cx, cy);
        }
    }
    let mut y: usize = 0;
    while y < height
        invariant
            mask@.len() == width * height,
            n == width * height,
            mask@.len() == n,
            used@.len() == n,
            y <= height,
            forall|k: int| 0 <= k < rs@.len() ==> greedy_step(wd, ht, mask@, rs@, k),
            forall|cx: int, cy: int| in_mask(wd, ht, cx, cy) ==> #[trigger] used@[cell(wd, cx, cy)] == covered(rs@, rs@.len() as int, cx, cy),
            forall|cx: int, cy: int| in_mask(wd, ht, cx, cy) && cy < y
                ==> #[trigger] mask@[cell(wd, cx, cy)] is None || covered(rs@, rs@.len() as int, cx, cy),
            wd == width && ht == height,
        decreases height - y,
    {
        proof {
            lemma_row_bound(wd, ht, y as int);
        }
        let mut x: usize = 0;
        while x < width
            invariant
                mask@.len() == width * height,
                n == width * height,
                mask@.len() == n,
                used@.len() == n,
                y < height,
                x <= width,
                y * width + width <= n,
                forall|k: int| 0 <= k < rs@.len() ==> greedy_step(wd, ht, mask@, rs@, k),
                forall|cx: int, cy: int| in_mask(wd, ht, cx, cy) ==> #[trigger] used@[cell(wd, cx, cy)] == covered(rs@, rs@.len() as int, cx, cy),
                forall|cx: int, cy: int| in_mask(wd, ht, cx, cy) && (cy < y || (cy == y && cx < x))
                    ==> #[trigger] mask@[cell(wd, cx, cy)] is None || covered(rs@, rs@.len() as int, cx, cy),
                wd == width && ht == height,
            decreases width - x,
        {
            proof {
                lemma_cell_bounds(wd, ht, x as int, y as int);
            }
            let idx = y * width + x;
            let here = mask[idx];
            if here.is_some() && !used[idx] {
                let code = here.unwrap();
                let ghost k = rs@.len() as int;
                let ghost rs0 = rs@;
                proof {
                    assert(cell(wd, x as int, y as int) == idx as int);
                    assert(used@[cell(wd, x as int, y as int)] == covered(rs0, k, x as int, y as int));
                    assert(mask@[cell(wd, x as int, y as int)] == Some(code));
                    assert(free(mask@, wd, rs0, k, x + 0, y as int, code));
                }
                // run right
                let mut w: usize = 1;
                while x + w < width && same_code(mask[y * width + (x + w)], code) && !used[y * width + (x + w)]
                    invariant
                        n == width * height,
                        mask@.len() == n,
                        used@.len() == n,
                        y < height,
                        x < width,
                        y * width + width <= n,
                        1 <= w,
                        x + w <= width,
                        rs@ == rs0,
                        forall|cx: int, cy: int| in_mask(wd, ht, cx, cy) ==> #[trigger] used@[cell(wd, cx, cy)] == covered(rs0, k, cx, cy),
                        forall|i: int| 0 <= i < w ==> #[trigger] free(mask@, wd, rs0, k, x + i, y as int, code),
                        wd == width && ht == height,
                        k == rs0.len(),
                    decreases width - x - w,
                {
                    proof {
                        let c = cell(wd, (x + w) as int, y as int);
                        assert(c == y * width + (x + w));
                        assert(used@[c] == covered(rs0, k, (x + w) as int, y as int));
                        assert(free(mask@, wd, rs0, k, x + w, y as int, code));
                    }
                    w = w + 1;
                }
                proof {
                    if x + w < width {
                        let c = cell(wd, (x + w) as int, y as int);
                        assert(c == y * width + (x + w));
                        assert(used@[c] == covered(rs0, k, (x + w) as int, y as int));
                        assert(!free(mask@, wd, rs0, k, (x + w) as int, y as int, code));
                    }
                }
                // grow down
                let mut h: usize = 1;
                let mut grow = true;
                while grow && y + h < height
                    invariant
                        n == width * height,
                        mask@.len() == n,
                        used@.len() == n,
                        y < height,
                        1 <= h,
                        y + h <= height,
                        1 <= w,
                        x + w <= width,
                        rs@ == rs0,
                        forall|cx: int, cy: int| in_mask(wd, ht, cx, cy) ==> #[trigger] used@[cell(wd, cx, cy)] == covered(rs0, k, cx, cy),
                        forall|i: int, j: int| 0 <= i < w && 0 <= j < h ==> #[trigger] free(mask@, wd, rs0, k, x + i, y + j, code),
                        !grow ==> y + h < height && exists|i: int| 0 <= i < w && !#[trigger] free(mask@, wd, rs0, k, x + i, y + h, code),
                        wd == width && ht == height,
                        k == rs0.len(),
                    decreases height - y - h, (if grow { 1int } else { 0int }),
                {
                    let mut i: usize = 0;
                    let mut ok = true;
                    while ok && i < w
                        invariant
                            n == width * height,
                            mask@.len() == n,
                            used@.len() == n,
                            y + h < height,
                            x + w <= width,
                            i <= w,
                            rs@ == rs0,
                            forall|cx: int, cy: int| in_mask(wd, ht, cx, cy) ==> #[trigger] used@[cell(wd, cx, cy)] == covered(rs0, k, cx, cy),
                            forall|ii: int| 0 <= ii < i ==> #[trigger] free(mask@, wd, rs0, k, x + ii, (y + h) as int, code),
                            !ok ==> i < w && !free(mask@, wd, rs0, k, x + i, (y + h) as int, code),
                            wd == width && ht == height,
                        decreases w - i, (if ok { 1int } else { 0int }),
                    {
                        proof {
                            lemma_cell_bounds(wd, ht, (x + i) as int, (y + h) as int);
                        }
                        let j = (y + h) * width + (x + i);
                        if !same_code(mask[j], code) || used[j] {
                            ok = false;
                        } else {
                            i = i + 1;
                        }
                    }
                    if ok {
                        proof {
                            assert forall|ii: int, jj: int| 0 <= ii < w && 0 <= jj < h + 1 implies #[trigger] free(mask@, wd, rs0, k, x + ii, y + jj, code) by {
                                if jj == h {
                                    assert(free(mask@, wd, rs0, k, x + ii, (y + h) as int, code));
                                }
                            }
                        }
                        h = h + 1;
                    } else {
                        proof {
                            assert(!free(mask@, wd, rs0, k, x + i, (y + h) as int, code));
                        }
                        grow = false;
                    }
                }
                let rect = GreedyRect { x, y, w, h, material: code.0, light: code.1 };
                rs.push(rect);
                proof {
                    let rs1 = rs@;
                    assert(rs1 == rs0.push(rect));
                    assert forall|cx: int, cy: int| covered(rs0, k, cx, cy) == covered(rs1, k, cx, cy) by {
                        lemma_covered_prefix(rs0, rs1, k, cx, cy);
                    }
                    assert forall|j: int| 0 <= j < rs1.len() implies greedy_step(wd, ht, mask@, rs1, j) by {
                        if j < k {
                            lemma_step_stable(wd, ht, mask@, rs0, rs1, j);
                        } else {
                            assert(rs1[j] == rect);
                            assert forall|cx: int, cy: int| #[trigger] rect.contains(cx, cy) implies free(mask@, wd, rs1, k, cx, cy, rect.code()) by {
                                assert(free(mask@, wd, rs0, k, x + (cx - x), y + (cy - y), code));
                            }
                            if x + w != width {
                                assert(!free(mask@, wd, rs0, k, (x + w) as int, y as int, code));
                            }
                            assert(rect.code() == code);
                            if y + h != height {
                                let i = choose|i: int| 0 <= i < w && !#[trigger] free(mask@, wd, rs0, k, x + i, y + h, code);
                                assert(!free(mask@, wd, rs1, k, x + i, y + h, code));
                                assert(!free(mask@, wd, rs1, k, rect.x + i, rect.y + rect.h, rect.code()));
                            }
                            assert(rect.w >= 1 && rect.h >= 1);
                            assert(rect.x + rect.w <= wd && rect.y + rect.h <= ht);
                            assert(forall|cx: int, cy: int| #[trigger] rect.contains(cx, cy) ==> free(mask@, wd, rs1, k, cx, cy, rect.code()));
                            assert forall|cx: int, cy: int| in_mask(wd, ht, cx, cy) && (cy < rect.y || (cy == rect.y && cx < rect.x))
                                implies #[trigger] mask@[cell(wd, cx, cy)] is None || covered(rs1, k, cx, cy) by {
                                assert(mask@[cell(wd, cx, cy)] is None || covered(rs0, k, cx, cy));
                            }
                            assert(rect.x + rect.w == wd || !free(mask@, wd, rs1, k, rect.x + rect.w, rect.y as int, rect.code()));
                            assert(rect.y + rect.h == ht || exists|i: int| 0 <= i < rect.w && !#[trigger] free(mask@, wd, rs1, k, rect.x + i, rect.y + rect.h, rect.code()));
                        }
                    }
                }
                // mark the rectangle's cells as covered
                let mut yy: usize = 0;
                while yy < h
                    invariant
                        n == width * height,
                        used@.len() == n,
                        y + h <= height,
                        x + w <= width,
                        yy <= h,
                        rs@.len() == k + 1,
                        rs@[k] == rect,
                        rect.x == x && rect.y == y && rect.w == w && rect.h == h,
                        forall|cx: int, cy: int| in_mask(wd, ht, cx, cy) ==> #[trigger] used@[cell(wd, cx, cy)]
                            == (covered(rs@, k, cx, cy) || (rect.contains(cx, cy) && cy < y + yy)),
                        wd == width && ht == height,
                    decreases h - yy,
                {
                    let mut xx: usize = 0;
                    while xx < w
                        invariant
                            n == width * height,
                            used@.len() == n,
                            y + h <= height,
                            x + w <= width,
                            yy < h,
                            xx <= w,
                            rs@.len() == k + 1,
                            rs@[k] == rect,
                            rect.x == x && rect.y == y && rect.w == w && rect.h == h,
                            forall|cx: int, cy: int| in_mask(wd, ht, cx, cy) ==> #[trigger] used@[cell(wd, cx, cy)]
                                == (covered(rs@, k, cx, cy) || (rect.contains(cx, cy) && (cy < y + yy || (cy == y + yy && cx < x + xx)))),
                            wd == width && ht == height,
                        decreases w - xx,
                    {
                        proof {
                            lemma_cell_bounds(wd, ht, (x + xx) as int, (y + yy) as int);
                        }
                        let j = (y + yy) * width + (x + xx);
                        let ghost u0 = used@;
                        used.set(j, true);
                        proof {
                            assert forall|cx: int, cy: int| in_mask(wd, ht, cx, cy) implies #[trigger] used@[cell(wd, cx, cy)]
                                == (covered(rs@, k, cx, cy) || (rect.contains(cx, cy) && (cy < y + yy || (cy == y + yy && cx < x + xx + 1)))) by {
                                lemma_cell_bounds(wd, ht, cx, cy);
                                if cell(wd, cx, cy) == j as int {
                                    lemma_cell_inj(wd, ht, cx, cy, (x + xx) as int, (y + yy) as int);
                                } else {
                                    assert(used@[cell(wd, cx, cy)] == u0[cell(wd, cx, cy)]);
                                }
                            }
                        }
                        xx = xx + 1;
                    }
                    yy = yy + 1;
                }
                proof {
                    assert forall|cx: int, cy: int| in_mask(wd, ht, cx, cy) implies #[trigger] used@[cell(wd, cx, cy)] == covered(rs@, rs@.len() as int, cx, cy) by {
                        lemma_covered_push(rs@, k, cx, cy);
                    }
                    assert forall|cx: int, cy: int| in_mask(wd, ht, cx, cy) && (cy < y || (cy == y && cx < x + 1))
                        implies #[trigger] mask@[cell(wd, cx, cy)] is None || covered(rs@, rs@.len() as int, cx, cy) by {
                        lemma_covered_push(rs@, k, cx, cy);
                        if cx == x && cy == y {
                            assert(rect.contains(cx, cy));
                        } else {
                            assert(covered(rs0, k, cx, cy) ==> covered(rs@, k, cx, cy)) by {
                                lemma_covered_prefix(rs0, rs@, k, cx, cy);
                            }
                        }
                    }
                }
            } else {
                proof {
                    assert forall|cx: int, cy: int| in_mask(wd, ht, cx, cy) && (cy < y || (cy == y && cx < x + 1))
                        implies #[trigger] mask@[cell(wd, cx, cy)] is None || covered(rs@, rs@.len() as int, cx, cy) by {
                        if cx == x && cy == y {
                            assert(mask@[cell(wd, cx, cy)] == here);
                        }
                    }
                }
            }
            x = x + 1;
        }
        y = y + 1;
    }
    rs
}

} // verus!
