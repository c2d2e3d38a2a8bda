//! Rebuild intents: the chunks waiting to be (re)meshed, why, and which of
//! them the scheduler hands to the workers on a frame.
use vstd::prelude::*;
use crate::coords::ChunkCoord;

verus! {

/// Why a chunk wants a rebuild, most urgent first.
#[derive(Clone, Copy, Debug, PartialEq, Eq, Structural)]
pub enum IntentCause {
    Edit,
    Light,
    StreamLoad,
    HotReload,
}

impl IntentCause {
    /// Urgency rank: 0 for the most urgent.
    pub open spec fn spec_rank(self) -> int {
        match self {
            IntentCause::Edit => 0,
            IntentCause::Light => 1,
            IntentCause::StreamLoad => 2,
            IntentCause::HotReload => 3,
        }
    }

    pub fn rank(self) -> (r: u8)
        ensures
            r as int == self.spec_rank(),
    {
        match self {
            IntentCause::Edit => 0,
            IntentCause::Light => 1,
            IntentCause::StreamLoad => 2,
            IntentCause::HotReload => 3,
        }
    }
}

/// A pending rebuild: the newest revision asked for, the most urgent cause
/// seen, and the tick of the last request.
#[derive(Clone, Copy, Debug, PartialEq, Eq, Structural)]
pub struct IntentEntry {
    pub rev: u64,
    pub cause: IntentCause,
    pub last_tick: u64,
}

/// The intent after another request for the same chunk: the larger
/// revision, the more urgent cause, and the current tick; a new intent when
/// there was none.
pub open spec fn spec_merge_intent(prev: Option<IntentEntry>, cur_rev: u64, cause: IntentCause, now: u64) -> IntentEntry {
    match prev {
        Some(e) => IntentEntry {
            rev: if cur_rev > e.rev { cur_rev } else { e.rev },
            cause: if cause.spec_rank() < e.cause.spec_rank() { cause } else { e.cause },
            last_tick: now,
        },
        None => IntentEntry { rev: cur_rev, cause, last_tick: now },
    }
}

/// See `spec_merge_intent`.
pub fn merge_intent(prev: Option<IntentEntry>, cur_rev: u64, cause: IntentCause, now: u64) -> (r: IntentEntry)
    ensures
        r == spec_merge_intent(prev, cur_rev, cause, now),
{
    match prev {
        Some(e) => IntentEntry {
            rev: if cur_rev > e.rev { cur_rev } else { e.rev },
            cause: if cause.rank() < e.cause.rank() { cause } else { e.cause },
            last_tick: now,
        },
        None => IntentEntry { rev: cur_rev, cause, last_tick: now },
    }
}

/// What the scheduler knows of one pending intent.
#[derive(Clone, Copy, Debug, PartialEq, Eq, Structural)]
pub struct PendingIntent {
    pub coord: ChunkCoord,
    pub entry: IntentEntry,
    /// A job for this chunk at this revision or newer is already in flight.
    pub inflight_covers: bool,
    /// The chunk is loaded and ready.
    pub ready: bool,
}

/// The frame's scheduling inputs.
#[derive(Clone, Copy, Debug, PartialEq, Eq, Structural)]
pub struct FlushSettings {
    /// The chunk the camera is in.
    pub cam: ChunkCoord,
    /// The current tick.
    pub now: u64,
    /// At most this many jobs are submitted in one frame.
    pub cap: usize,
    /// Free queue places of the edit, light and background lanes.
    pub budget_edit: usize,
    pub budget_light: usize,
    pub budget_bg: usize,
    /// The streaming radius in chunks.
    pub view_radius: i32,
}

/// Squared distance in chunks from the camera's chunk.
pub open spec fn dist_bucket(it: PendingIntent, s: FlushSettings) -> int {
    let dx = it.coord.cx - s.cam.cx;
    let dy = it.coord.cy - s.cam.cy;
    let dz = it.coord.cz - s.cam.cz;
    dx * dx + dy * dy + dz * dz
}

/// Priority bonus for old intents: -2 after 180 ticks, -1 after 60.
pub open spec fn age_boost(now: u64, last_tick: u64) -> int {
    let age = if now >= last_tick { now - last_tick } else { 0 };
    if age > 180 { -2 } else if age > 60 { -1 } else { 0 }
}

/// The sort key of item `i`: cause, distance, age bonus, then position.
pub open spec fn flush_key(items: Seq<PendingIntent>, s: FlushSettings, i: int) -> (int, int, int, int) {
    let it = items[i];
    (it.entry.cause.spec_rank(), dist_bucket(it, s), age_boost(s.now, it.entry.last_tick), i)
}

pub open spec fn key_before(a: (int, int, int, int), b: (int, int, int, int)) -> bool {
    a.0 < b.0 || (a.0 == b.0 && (a.1 < b.1 || (a.1 == b.1 && (a.2 < b.2 || (a.2 == b.2 && a.3 < b.3)))))
}

/// `order` lists every item index once, by cause, then distance, then age
/// bonus, ties kept in item order.
pub open spec fn is_flush_order(items: Seq<PendingIntent>, s: FlushSettings, order: Seq<usize>) -> bool {
    &&& order.len() == items.len()
    &&& forall|i: int| 0 <= i < order.len() ==> #[trigger] order[i] < items.len()
    &&& forall|i: int, j: int| 0 <= i < j < order.len() ==>
        key_before(flush_key(items, s, #[trigger] order[i] as int), flush_key(items, s, #[trigger] order[j] as int))
}

/// Budgets left: jobs submitted so far, then the edit, light and
/// background lane budgets.
pub type FlushState = (int, int, int, int);

pub open spec fn flush_start(s: FlushSettings) -> FlushState {
    (0, s.budget_edit as int, s.budget_light as int, s.budget_bg as int)
}

pub open spec fn stream_radius(s: FlushSettings) -> int {
    if s.view_radius < 0 { 0 } else { s.view_radius as int }
}

/// Whether the scheduler passes over item `it` in state `st`: its job is
/// already in flight, its lane has no budget left, or it is too far
/// (light: beyond one chunk past the streaming radius; streaming and
/// reloads: beyond the streaming radius), or it streams a chunk that is
/// already ready.
pub open spec fn passes_over(it: PendingIntent, s: FlushSettings, st: FlushState) -> bool {
    let d = dist_bucket(it, s);
    let r = stream_radius(s);
    it.inflight_covers || match it.entry.cause {
        IntentCause::Edit => st.1 == 0,
        IntentCause::Light => d > (r + 1) * (r + 1) || st.2 == 0,
        IntentCause::StreamLoad => it.ready || d > r * r || st.3 == 0,
        IntentCause::HotReload => d > r * r || st.3 == 0,
    }
}

/// The state after submitting a job of the given cause.
pub open spec fn after_submit(st: FlushState, cause: IntentCause) -> FlushState {
    match cause {
        IntentCause::Edit => (st.0 + 1, st.1 - 1, st.2, st.3),
        IntentCause::Light => (st.0 + 1, st.1, st.2 - 1, st.3),
        _ => (st.0 + 1, st.1, st.2, st.3 - 1),
    }
}

/// The item indices submitted walking `order` from state `st`, until the
/// frame's cap is reached.
pub open spec fn plan_from(items: Seq<PendingIntent>, s: FlushSettings, order: Seq<usize>, st: FlushState) -> Seq<usize>
    decreases order.len(),
{
    if order.len() == 0 || st.0 >= s.cap {
        Seq::empty()
    } else {
        let it = items[order[0] as int];
        if passes_over(it, s, st) {
            plan_from(items, s, order.drop_first(), st)
        } else {
            seq![order[0]] + plan_from(items, s, order.drop_first(), after_submit(st, it.entry.cause))
        }
    }
}

/// The items' keys fit the scheduler's integer widths: each offset from
/// the camera's chunk fits `i32` and the squared distance fits `i64`.
pub open spec fn keys_fit(items: Seq<PendingIntent>, s: FlushSettings) -> bool {
    forall|i: int| 0 <= i < items.len() ==> {
        let c = #[trigger] items[i].coord;
        &&& i32::MIN <= c.cx - s.cam.cx <= i32::MAX
        &&& i32::MIN <= c.cy - s.cam.cy <= i32::MAX
        &&& i32::MIN <= c.cz - s.cam.cz <= i32::MAX
        &&& dist_bucket(items[i], s) <= i64::MAX
    }
}

proof fn lemma_square(d: int)
    requires
        i32::MIN <= d <= i32::MAX,
    ensures
        0 <= d * d <= 0x4000_0000_0000_0000,
{
    assert(0 <= d * d <= 0x4000_0000_0000_0000) by (nonlinear_arith)
        requires -0x8000_0000 <= d <= 0x7fff_ffff;
}

/// The sort key of one item, as stored.
fn item_key(it: &PendingIntent, s: &FlushSettings) -> (k: (u8, i64, i32))
    requires
        i32::MIN <= it.coord.cx - s.cam.cx <= i32::MAX,
        i32::MIN <= it.coord.cy - s.cam.cy <= i32::MAX,
        i32::MIN <= it.coord.cz - s.cam.cz <= i32::MAX,
        dist_bucket(*it, *s) <= i64::MAX,
    ensures
        k.0 as int == it.entry.cause.spec_rank(),
        k.1 as int == dist_bucket(*it, *s),
        k.2 as int == age_boost(s.now, it.entry.last_tick),
{
    let dx: i64 = (it.coord.cx - s.cam.cx) as i64;
    let dy: i64 = (it.coord.cy - s.cam.cy) as i64;
    let dz: i64 = (it.coord.cz - s.cam.cz) as i64;
    proof {
        lemma_square(dx as int);
        lemma_square(dy as int);
        lemma_square(dz as int);
    }
    let d: i64 = dx * dx + dy * dy + dz * dz;
    let age: u64 = s.now.saturating_sub(it.entry.last_tick);
    let boost: i32 = if age > 180 {
        -2
    } else if age > 60 {
        -1
    } else {
        0
    };
    (it.entry.cause.rank(), d, boost)
}

fn stored_before(a: (u8, i64, i32), ia: usize, b: (u8, i64, i32), ib: usize) -> (r: bool)
    ensures
        r == key_before((a.0 as int, a.1 as int, a.2 as int, ia as int), (b.0 as int, b.1 as int, b.2 as int, ib as int)),
{
    a.0 < b.0 || (a.0 == b.0 && (a.1 < b.1 || (a.1 == b.1 && (a.2 < b.2 || (a.2 == b.2 && ia < ib)))))
}

/// The order in which the scheduler looks at the items (see `is_flush_order`).
pub fn flush_order(items: &Vec<PendingIntent>, s: &FlushSettings) -> (order: Vec<usize>)
    requires
        keys_fit(items@, *s),
    ensures
        is_flush_order(items@, *s, order@),
{
    let n = items.len();
    let mut keys: Vec<(u8, i64, i32)> = Vec::new();
    let mut k: usize = 0;
    while k < n
        invariant
            n == items@.len(),
            k <= n,
            keys_fit(items@, *s),
            keys@.len() == k,
            forall|i: int| 0 <= i < k ==> {
                let kk = #[trigger] keys@[i];
                (kk.0 as int, kk.1 as int, kk.2 as int, i) == flush_key(items@, *s, i)
            },
        decreases n - k,
    {
        let kk = item_key(&items[k], s);
        keys.push(kk);
        k = k + 1;
    }
    let mut order: Vec<usize> = Vec::new();
    let mut k: usize = 0;
    while k < n
        invariant
            n == items@.len(),
            k <= n,
            keys@.len() == n,
            forall|i: int| 0 <= i < n ==> {
                let kk = #[trigger] keys@[i];
                (kk.0 as int, kk.1 as int, kk.2 as int, i) == flush_key(items@, *s, i)
            },
            order@.len() == k,
            forall|i: int| 0 <= i < order@.len() ==> #[trigger] order@[i] < k,
            order@.no_duplicates(),
            forall|i: int, j: int| 0 <= i < j < order@.len() ==>
                key_before(flush_key(items@, *s, #[trigger] order@[i] as int), flush_key(items@, *s, #[trigger] order@[j] as int)),
        decreases n - k,
    {
        let kk = keys[k];
        let mut p: usize = 0;
        let mut found = false;
        while p < order.len() && !found
            invariant
                k < n,
                n == items@.len(),
                keys@.len() == n,
                kk == keys@[k as int],
                forall|i: int| 0 <= i < n ==> {
                    let q = #[trigger] keys@[i];
                    (q.0 as int, q.1 as int, q.2 as int, i) == flush_key(items@, *s, i)
                },
                p <= order@.len(),
                forall|i: int| 0 <= i < order@.len() ==> #[trigger] order@[i] < k,
                forall|i: int| 0 <= i < p ==> key_before(flush_key(items@, *s, #[trigger] order@[i] as int), flush_key(items@, *s, k as int)),
                found ==> p < order@.len() && key_before(flush_key(items@, *s, k as int), flush_key(items@, *s, order@[p as int] as int)),
            decreases order@.len() - p + (if found { 0int } else { 1int }),
        {
            let e = order[p];
            let ke = keys[e];
            if stored_before(kk, k, ke, e) {
                found = true;
            } else {
                p = p + 1;
            }
        }
        let ghost old_order = order@;
        order.insert(p, k);
        proof {
            assert forall|i: int| 0 <= i < order@.len() implies #[trigger] order@[i] < k + 1 by {
                if i < p {
                    assert(order@[i] == old_order[i]);
                } else if i > p {
                    assert(order@[i] == old_order[i - 1]);
                }
            }
            assert forall|i: int, j: int| 0 <= i < j < order@.len() implies order@[i] != order@[j] by {
                if i < p && j < p {
                    assert(order@[i] == old_order[i] && order@[j] == old_order[j]);
                } else if i < p && j == p {
                    assert(order@[i] == old_order[i]);
                } else if i < p {
                    assert(order@[i] == old_order[i] && order@[j] == old_order[j - 1]);
                } else if i == p {
                    assert(order@[j] == old_order[j - 1]);
                } else {
                    assert(order@[i] == old_order[i - 1] && order@[j] == old_order[j - 1]);
                }
            }
            assert forall|i: int, j: int| 0 <= i < j < order@.len() implies
                key_before(flush_key(items@, *s, #[trigger] order@[i] as int), flush_key(items@, *s, #[trigger] order@[j] as int)) by {
                if i < p && j < p {
                    assert(order@[i] == old_order[i] && order@[j] == old_order[j]);
                } else if i < p && j == p {
                    assert(order@[i] == old_order[i]);
                } else if i < p {
                    assert(order@[i] == old_order[i] && order@[j] == old_order[j - 1]);
                    assert(key_before(flush_key(items@, *s, old_order[i] as int), flush_key(items@, *s, k as int)));
                    if j - 1 > p {
                        assert(key_before(flush_key(items@, *s, old_order[p as int] as int), flush_key(items@, *s, old_order[j - 1] as int)));
                    }
                } else if i == p {
                    assert(order@[j] == old_order[j - 1]);
                    if j - 1 > p {
                        assert(key_before(flush_key(items@, *s, old_order[p as int] as int), flush_key(items@, *s, old_order[j - 1] as int)));
                    }
                } else {
                    assert(order@[i] == old_order[i - 1] && order@[j] == old_order[j - 1]);
                }
            }
        }
        k = k + 1;
    }
    order
}

/// The submissions of one frame: the indices of the items handed to the
/// workers, in order (see `plan_from`), walking the items in the order of
/// `is_flush_order`.
pub fn plan_flush(items: &Vec<PendingIntent>, s: &FlushSettings) -> (r: Vec<usize>)
    requires
        keys_fit(items@, *s),
        s.view_radius < i32::MAX,
    ensures
        exists|o: Seq<usize>| is_flush_order(items@, *s, o),
        forall|o: Seq<usize>| is_flush_order(items@, *s, o) ==> r@ == plan_from(items@, *s, o, flush_start(*s)),
{
    let order = flush_order(items, s);
    let ghost full = order@;
    let r: i32 = if s.view_radius < 0 { 0 } else { s.view_radius };
    let rr: i64 = (r + 1) as i64;
    proof {
        lemma_square(rr as int);
        lemma_square(r as int);
    }
    let gate_light_sq: i64 = rr * rr;
    let gate_stream_sq: i64 = (r as i64) * (r as i64);
    let mut submitted: usize = 0;
    let mut budget_edit: usize = s.budget_edit;
    let mut budget_light: usize = s.budget_light;
    let mut budget_bg: usize = s.budget_bg;
    let mut out: Vec<usize> = Vec::new();
    let mut t: usize = 0;
    proof {
        assert(full.skip(0) =~= full);
        assert(out@ + plan_from(items@, *s, full.skip(0), flush_start(*s)) =~= plan_from(items@, *s, full, flush_start(*s)));
    }
    while t < order.len()
        invariant
            full == order@,
            is_flush_order(items@, *s, full),
            keys_fit(items@, *s),
            t <= full.len(),
            r as int == stream_radius(*s),
            gate_light_sq == (r + 1) * (r + 1),
            gate_stream_sq == r * r,
            submitted <= t,
            out@ + plan_from(items@, *s, full.skip(t as int), (submitted as int, budget_edit as int, budget_light as int, budget_bg as int))
                == plan_from(items@, *s, full, flush_start(*s)),
        ensures
            t <= full.len(),
            t < full.len() ==> submitted >= s.cap,
            out@ + plan_from(items@, *s, full.skip(t as int), (submitted as int, budget_edit as int, budget_light as int, budget_bg as int))
                == plan_from(items@, *s, full, flush_start(*s)),
        decreases full.len() - t,
    {
        let ghost st: FlushState = (submitted as int, budget_edit as int, budget_light as int, budget_bg as int);
        let ghost rest = full.skip(t as int);
        if submitted >= s.cap {
            break;
        }
        let idx = order[t];
        let it = &items[idx];
        let kk = item_key(it, s);
        let d: i64 = kk.1;
        proof {
            assert(rest[0] == idx);
            assert(rest.drop_first() =~= full.skip(t + 1));
        }
        let skip = it.inflight_covers || match it.entry.cause {
            IntentCause::Edit => budget_edit == 0,
            IntentCause::Light => d > gate_light_sq || budget_light == 0,
            IntentCause::StreamLoad => it.ready || d > gate_stream_sq || budget_bg == 0,
            IntentCause::HotReload => d > gate_stream_sq || budget_bg == 0,
        };
        if !skip {
            out.push(idx);
            submitted = submitted + 1;
            match it.entry.cause {
                IntentCause::Edit => {
                    budget_edit = budget_edit - 1;
                },
                IntentCause::Light => {
                    budget_light = budget_light - 1;
                },
                _ => {
                    budget_bg = budget_bg - 1;
                },
            }
        }
        t = t + 1;
    }
    proof {
        let st: FlushState = (submitted as int, budget_edit as int, budget_light as int, budget_bg as int);
        if t == full.len() {
            assert(full.skip(t as int) =~= Seq::<usize>::empty());
        }
        assert(plan_from(items@, *s, full.skip(t as int), st) =~= Seq::<usize>::empty());
        assert(out@ + Seq::<usize>::empty() =~= out@);
        assert(items@.len() == items.len());
        assert forall|o: Seq<usize>| is_flush_order(items@, *s, o) implies out@ == plan_from(items@, *s, o, flush_start(*s)) by {
            lemma_flush_order_unique(items@, *s, o, full);
        }
    }
    out
}

/// The flush order is determined by the items: any two orders that meet
/// `is_flush_order` are the same.
pub proof fn lemma_flush_order_unique(items: Seq<PendingIntent>, s: FlushSettings, o1: Seq<usize>, o2: Seq<usize>)
    requires
        items.len() <= usize::MAX,
        is_flush_order(items, s, o1),
        is_flush_order(items, s, o2),
    ensures
        o1 == o2,
{
    lemma_sorted_perm_unique(items, s, o1, o2);
}

proof fn lemma_sorted_perm_unique(items: Seq<PendingIntent>, s: FlushSettings, o1: Seq<usize>, o2: Seq<usize>)
    requires
        items.len() <= usize::MAX,
        is_flush_order(items, s, o1),
        is_flush_order(items, s, o2),
    ensures
        o1 == o2,
{
    if o1.len() > 0 {
        lemma_orders_agree_upto(items, s, o1, o2, o1.len() - 1);
    }
    assert(o1 =~= o2);
}

/// Two flush orders agree on their first `i + 1` positions.
proof fn lemma_orders_agree_upto(items: Seq<PendingIntent>, s: FlushSettings, o1: Seq<usize>, o2: Seq<usize>, i: int)
    requires
        items.len() <= usize::MAX,
        is_flush_order(items, s, o1),
        is_flush_order(items, s, o2),
        0 <= i < o1.len(),
    ensures
        forall|k: int| 0 <= k <= i ==> o1[k] == o2[k],
    decreases i,
{
    if i > 0 {
        lemma_orders_agree_upto(items, s, o1, o2, i - 1);
    }
    lemma_holds_all(items, s, o1);
    lemma_holds_all(items, s, o2);
    let a = o1[i];
    let b = o2[i];
    if a != b {
        assert(a < items.len() && b < items.len());
        if key_before(flush_key(items, s, a as int), flush_key(items, s, b as int)) {
            assert(o2.contains(a));
            let j = choose|j: int| 0 <= j < o2.len() && o2[j] == a;
            if j > i {
                assert(key_before(flush_key(items, s, o2[i] as int), flush_key(items, s, o2[j] as int)));
            } else {
                assert(o1[j] == o2[j]);
                assert(key_before(flush_key(items, s, o1[j] as int), flush_key(items, s, o1[i] as int)));
            }
        } else {
            assert(o1.contains(b));
            let j = choose|j: int| 0 <= j < o1.len() && o1[j] == b;
            if j > i {
                assert(key_before(flush_key(items, s, o1[i] as int), flush_key(items, s, o1[j] as int)));
            } else {
                assert(o1[j] == o2[j]);
                assert(key_before(flush_key(items, s, o2[j] as int), flush_key(items, s, o2[i] as int)));
            }
        }
    }
}

/// A flush order lists every item index.
proof fn lemma_holds_all(items: Seq<PendingIntent>, s: FlushSettings, o: Seq<usize>)
    requires
        items.len() <= usize::MAX,
        is_flush_order(items, s, o),
    ensures
        forall|x: usize| x < items.len() ==> #[trigger] o.contains(x),
{
    assert(o.no_duplicates()) by {
        assert forall|a: int, b: int| 0 <= a < b < o.len() implies o[a] != o[b] by {
            assert(key_before(flush_key(items, s, o[a] as int), flush_key(items, s, o[b] as int)));
        }
    }
    lemma_full_range(o, items.len());
}

/// A duplicate-free sequence of `n` numbers below `n` holds each of them.
proof fn lemma_full_range(o: Seq<usize>, n: nat)
    requires
        n <= usize::MAX,
        o.no_duplicates(),
        o.len() == n,
        forall|i: int| 0 <= i < o.len() ==> #[trigger] o[i] < n,
    ensures
        forall|x: usize| x < n ==> #[trigger] o.contains(x),
{
    let full = Set::<usize>::new(|x: usize| x < n);
    assert(o.to_set().subset_of(full));
    lemma_range_set_len(n);
    o.unique_seq_to_set();
    vstd::set_lib::lemma_subset_equality(o.to_set(), full);
    assert forall|x: usize| x < n implies #[trigger] o.contains(x) by {
        assert(full.contains(x));
        assert(o.to_set().contains(x));
    }
}

/// The numbers below `n` form a finite set of `n` elements.
proof fn lemma_range_set_len(n: nat)
    requires
        n <= usize::MAX,
    ensures
        Set::<usize>::new(|x: usize| x < n).finite(),
        Set::<usize>::new(|x: usize| x < n).len() == n,
    decreases n,
{
    let full = Set::<usize>::new(|x: usize| x < n);
    if n == 0 {
        assert(full =~= Set::<usize>::empty());
    } else {
        lemma_range_set_len((n - 1) as nat);
        let smaller = Set::<usize>::new(|x: usize| x < (n - 1) as nat);
        assert(full =~= smaller.insert((n - 1) as usize));
        assert(!smaller.contains((n - 1) as usize));
    }
}

/// Extra queue places per lane beyond one per worker.
pub const LANE_QUEUE_EXTRA: usize = 3;
/// Jobs per worker that one frame may submit.
pub const JOB_FRAME_CAP_MULT: usize = 4;

/// The frame's job cap: `JOB_FRAME_CAP_MULT` per worker, at least 8.
pub fn frame_cap(worker_n: usize) -> (r: usize)
    requires
        worker_n * JOB_FRAME_CAP_MULT <= usize::MAX,
    ensures
        r == if worker_n * JOB_FRAME_CAP_MULT >= 8 { worker_n * JOB_FRAME_CAP_MULT } else { 8 },
{
    let c = worker_n * JOB_FRAME_CAP_MULT;
    if c >= 8 { c } else { 8 }
}

/// A lane's free places: its workers (at least one) plus
/// `LANE_QUEUE_EXTRA`, less the jobs queued and in flight, and no less than 0.
pub fn lane_budget(workers: usize, queued: usize, inflight: usize) -> (r: usize)
    requires
        workers + LANE_QUEUE_EXTRA <= usize::MAX,
        queued + inflight <= usize::MAX,
    ensures
        ({
            let target = (if workers >= 1 { workers as int } else { 1 }) + LANE_QUEUE_EXTRA;
            r == if target > queued + inflight { target - (queued + inflight) } else { 0 }
        }),
{
    let w: usize = if workers >= 1 { workers } else { 1 };
    let target = w + LANE_QUEUE_EXTRA;
    target.saturating_sub(queued + inflight)
}

/// The lane of a cause: 0 for edits, 1 for light, 2 for streaming and
/// reloads.
pub open spec fn lane_of(c: IntentCause) -> int {
    match c {
        IntentCause::Edit => 0,
        IntentCause::Light => 1,
        _ => 2,
    }
}

/// How many of the submitted items `p` go to lane `lane`.
pub open spec fn lane_count(items: Seq<PendingIntent>, p: Seq<usize>, lane: int) -> int
    decreases p.len(),
{
    if p.len() == 0 {
        0
    } else {
        (if lane_of(items[p[0] as int].entry.cause) == lane { 1int } else { 0int }) + lane_count(items, p.drop_first(), lane)
    }
}

/// A frame submits at most `cap` jobs, none whose job is already in
/// flight, and no lane more jobs than it has free places.
pub proof fn lemma_flush_within_limits(items: Seq<PendingIntent>, s: FlushSettings, order: Seq<usize>)
    requires
        forall|i: int| 0 <= i < order.len() ==> #[trigger] order[i] < items.len(),
    ensures
        plan_from(items, s, order, flush_start(s)).len() <= s.cap,
        forall|i: int| 0 <= i < plan_from(items, s, order, flush_start(s)).len() ==>
            !items[#[trigger] plan_from(items, s, order, flush_start(s))[i] as int].inflight_covers,
        lane_count(items, plan_from(items, s, order, flush_start(s)), 0) <= s.budget_edit,
        lane_count(items, plan_from(items, s, order, flush_start(s)), 1) <= s.budget_light,
        lane_count(items, plan_from(items, s, order, flush_start(s)), 2) <= s.budget_bg,
{
    lemma_plan_bounded(items, s, order, flush_start(s));
}

proof fn lemma_plan_bounded(items: Seq<PendingIntent>, s: FlushSettings, order: Seq<usize>, st: FlushState)
    requires
        forall|i: int| 0 <= i < order.len() ==> #[trigger] order[i] < items.len(),
        st.0 >= 0 && st.1 >= 0 && st.2 >= 0 && st.3 >= 0,
    ensures
        st.0 + plan_from(items, s, order, st).len() <= (if st.0 > s.cap { st.0 } else { s.cap as int }),
        forall|i: int| 0 <= i < plan_from(items, s, order, st).len() ==>
            !items[#[trigger] plan_from(items, s, order, st)[i] as int].inflight_covers,
        lane_count(items, plan_from(items, s, order, st), 0) <= st.1,
        lane_count(items, plan_from(items, s, order, st), 1) <= st.2,
        lane_count(items, plan_from(items, s, order, st), 2) <= st.3,
    decreases order.len(),
{
    let p = plan_from(items, s, order, st);
    if order.len() == 0 || st.0 >= s.cap {
        assert(p =~= Seq::<usize>::empty());
    } else {
        let rest = order.drop_first();
        assert forall|i: int| 0 <= i < rest.len() implies #[trigger] rest[i] < items.len() by {
            assert(rest[i] == order[i + 1]);
        }
        let it = items[order[0] as int];
        if passes_over(it, s, st) {
            lemma_plan_bounded(items, s, rest, st);
        } else {
            let st2 = after_submit(st, it.entry.cause);
            lemma_plan_bounded(items, s, rest, st2);
            let sub = plan_from(items, s, rest, st2);
            assert(p == seq![order[0]] + sub);
            assert(p.drop_first() =~= sub);
            assert forall|i: int| 0 <= i < p.len() implies !items[#[trigger] p[i] as int].inflight_covers by {
                if i > 0 {
                    assert(p[i] == sub[i - 1]);
                }
            }
        }
    }
}


/// The squared chunk distance of an intent from the camera's chunk.
pub open spec fn sq_chunk_dist(it: PendingIntent, cam: ChunkCoord) -> int {
    (it.coord.cx - cam.cx) * (it.coord.cx - cam.cx) + (it.coord.cy - cam.cy) * (it.coord.cy - cam.cy)
        + (it.coord.cz - cam.cz) * (it.coord.cz - cam.cz)
}

/// A frame never submits a job beyond its cause's distance gate: a light
/// rebuild at most one chunk past the streaming radius `r` (squared
/// distance at most `(r + 1)^2`), a stream load or hot reload within the
/// radius (at most `r^2`), and never a stream load of a chunk already ready
/// (`r` is the view radius, 0 when negative).
pub proof fn lemma_flush_respects_distance_gates(items: Seq<PendingIntent>, s: FlushSettings, order: Seq<usize>)
    requires
        forall|i: int| 0 <= i < order.len() ==> #[trigger] order[i] < items.len(),
    ensures
        ({
            let p = plan_from(items, s, order, flush_start(s));
            let r: int = if s.view_radius < 0 { 0 } else { s.view_radius as int };
            forall|i: int| 0 <= i < p.len() ==> {
                let it = items[#[trigger] p[i] as int];
                &&& it.entry.cause == IntentCause::Light ==> sq_chunk_dist(it, s.cam) <= (r + 1) * (r + 1)
                &&& (it.entry.cause == IntentCause::StreamLoad || it.entry.cause == IntentCause::HotReload) ==> sq_chunk_dist(it, s.cam) <= r * r
                &&& it.entry.cause == IntentCause::StreamLoad ==> !it.ready
            }
        }),
{
    lemma_plan_gated(items, s, order, flush_start(s));
}

proof fn lemma_plan_gated(items: Seq<PendingIntent>, s: FlushSettings, order: Seq<usize>, st: FlushState)
    requires
        forall|i: int| 0 <= i < order.len() ==> #[trigger] order[i] < items.len(),
    ensures
        ({
            let p = plan_from(items, s, order, st);
            let r: int = if s.view_radius < 0 { 0 } else { s.view_radius as int };
            forall|i: int| 0 <= i < p.len() ==> {
                let it = items[#[trigger] p[i] as int];
                &&& it.entry.cause == IntentCause::Light ==> sq_chunk_dist(it, s.cam) <= (r + 1) * (r + 1)
                &&& (it.entry.cause == IntentCause::StreamLoad || it.entry.cause == IntentCause::HotReload) ==> sq_chunk_dist(it, s.cam) <= r * r
                &&& it.entry.cause == IntentCause::StreamLoad ==> !it.ready
            }
        }),
    decreases order.len(),
{
    let p = plan_from(items, s, order, st);
    let r: int = if s.view_radius < 0 { 0 } else { s.view_radius as int };
    if order.len() == 0 || st.0 >= s.cap {
        assert(p =~= Seq::<usize>::empty());
    } else {
        let rest = order.drop_first();
        assert forall|i: int| 0 <= i < rest.len() implies #[trigger] rest[i] < items.len() by {
            assert(rest[i] == order[i + 1]);
        }
        let it = items[order[0] as int];
        if passes_over(it, s, st) {
            lemma_plan_gated(items, s, rest, st);
        } else {
            let st2 = after_submit(st, it.entry.cause);
            lemma_plan_gated(items, s, rest, st2);
            let sub = plan_from(items, s, rest, st2);
            assert(p == seq![order[0]] + sub);
            assert(sq_chunk_dist(it, s.cam) == dist_bucket(it, s));
            assert forall|i: int| 0 <= i < p.len() implies {
                let jt = items[#[trigger] p[i] as int];
                &&& jt.entry.cause == IntentCause::Light ==> sq_chunk_dist(jt, s.cam) <= (r + 1) * (r + 1)
                &&& (jt.entry.cause == IntentCause::StreamLoad || jt.entry.cause == IntentCause::HotReload) ==> sq_chunk_dist(jt, s.cam) <= r * r
                &&& jt.entry.cause == IntentCause::StreamLoad ==> !jt.ready
            } by {
                if i > 0 {
                    assert(p[i] == sub[i - 1]);
                } else {
                    assert(p[0] == order[0]);
                }
            }
        }
    }
}

} // verus!
