//! The tick-scheduled event queue: events are filed under the tick at
//! which they become due, each tick's events come out first in first out,
//! and events filed under a tick that has passed stay behind as stale.
//!
//! The queue is generic over the event payload, which it never reads.
use vstd::prelude::*;
use std::collections::VecDeque;

verus! {

/// An event with its id and the tick it was filed under.
pub struct EventEnvelope<E> {
    pub id: u64,
    pub tick: u64,
    pub kind: E,
}

/// The queue's contents: one bucket per tick that has one, in increasing
/// order of tick, each bucket in filing order.
pub open spec fn ticks_increasing<E>(bs: Seq<(u64, Seq<EventEnvelope<E>>)>) -> bool {
    forall|i: int, j: int| 0 <= i < j < bs.len() ==> #[trigger] bs[i].0 < #[trigger] bs[j].0
}

/// The events filed under `tick` (none when it has no bucket).
pub open spec fn queue_at<E>(bs: Seq<(u64, Seq<EventEnvelope<E>>)>, tick: u64) -> Seq<EventEnvelope<E>>
    decreases bs.len(),
{
    if bs.len() == 0 {
        Seq::empty()
    } else if bs[0].0 == tick {
        bs[0].1
    } else {
        queue_at(bs.drop_first(), tick)
    }
}

/// Whether `tick` has a bucket, possibly empty.
pub open spec fn has_bucket<E>(bs: Seq<(u64, Seq<EventEnvelope<E>>)>, tick: u64) -> bool {
    exists|i: int| 0 <= i < bs.len() && #[trigger] bs[i].0 == tick
}

/// `env` appended to the bucket of `tick`, which is created in its place
/// in tick order when missing.
pub open spec fn add_event<E>(bs: Seq<(u64, Seq<EventEnvelope<E>>)>, tick: u64, env: EventEnvelope<E>) -> Seq<(u64, Seq<EventEnvelope<E>>)>
    decreases bs.len(),
{
    if bs.len() == 0 {
        seq![(tick, seq![env])]
    } else if bs[0].0 == tick {
        bs.update(0, (tick, bs[0].1.push(env)))
    } else if bs[0].0 > tick {
        seq![(tick, seq![env])] + bs
    } else {
        seq![bs[0]] + add_event(bs.drop_first(), tick, env)
    }
}

/// The front event of the bucket of `now`, with the queue after taking it;
/// nothing, and the queue unchanged, when that bucket is missing or empty.
pub open spec fn pop_event<E>(bs: Seq<(u64, Seq<EventEnvelope<E>>)>, now: u64) -> (Option<EventEnvelope<E>>, Seq<(u64, Seq<EventEnvelope<E>>)>)
    decreases bs.len(),
{
    if bs.len() == 0 {
        (None, bs)
    } else if bs[0].0 == now {
        if bs[0].1.len() > 0 {
            (Some(bs[0].1[0]), bs.update(0, (now, bs[0].1.drop_first())))
        } else {
            (None, bs)
        }
    } else if bs[0].0 > now {
        (None, bs)
    } else {
        let (r, rest) = pop_event(bs.drop_first(), now);
        (r, seq![bs[0]] + rest)
    }
}

/// The queue with the bucket of `now` removed if it is empty.
pub open spec fn drop_empty_at<E>(bs: Seq<(u64, Seq<EventEnvelope<E>>)>, now: u64) -> Seq<(u64, Seq<EventEnvelope<E>>)>
    decreases bs.len(),
{
    if bs.len() == 0 {
        bs
    } else if bs[0].0 == now {
        if bs[0].1.len() == 0 {
            bs.drop_first()
        } else {
            bs
        }
    } else if bs[0].0 > now {
        bs
    } else {
        seq![bs[0]] + drop_empty_at(bs.drop_first(), now)
    }
}

/// `(tick, count)` for each bucket of a tick before `now`, in queue order.
pub open spec fn stale_listing<E>(bs: Seq<(u64, Seq<EventEnvelope<E>>)>, now: u64) -> Seq<(u64, int)>
    decreases bs.len(),
{
    if bs.len() == 0 {
        Seq::empty()
    } else {
        let last = bs.last();
        stale_listing(bs.drop_last(), now) + if last.0 < now {
            seq![(last.0, last.1.len() as int)]
        } else {
            Seq::empty()
        }
    }
}

/// The number of events filed under ticks before `now`.
pub open spec fn stale_count<E>(bs: Seq<(u64, Seq<EventEnvelope<E>>)>, now: u64) -> int
    decreases bs.len(),
{
    if bs.len() == 0 {
        0
    } else {
        let last = bs.last();
        stale_count(bs.drop_last(), now) + if last.0 < now { last.1.len() as int } else { 0 }
    }
}

/// Every queued event, bucket after bucket.
pub open spec fn all_queued<E>(bs: Seq<(u64, Seq<EventEnvelope<E>>)>) -> Seq<EventEnvelope<E>>
    decreases bs.len(),
{
    if bs.len() == 0 {
        Seq::empty()
    } else {
        all_queued(bs.drop_last()) + bs.last().1
    }
}

/// The id handed out after `id`: the next one, skipping 0 on wrap-around.
pub open spec fn id_after(id: u64) -> u64 {
    if id == u64::MAX { 1 } else { (id + 1) as u64 }
}

/// The tick after `now`, wrapping around.
pub open spec fn tick_after(now: u64) -> u64 {
    if now == u64::MAX { 0 } else { (now + 1) as u64 }
}

/// Events waiting for their tick: one first-in first-out bucket per tick,
/// the buckets kept in strictly increasing tick order (see `wf`), so the
/// bucket of a tick is found and the earliest one taken first.
pub struct EventQueue<E> {
    by_tick: Vec<(u64, VecDeque<EventEnvelope<E>>)>,
    pub now: u64,
    next_id: u64,
}

impl<E> EventQueue<E> {
    /// The buckets, by tick.
    pub closed spec fn buckets(&self) -> Seq<(u64, Seq<EventEnvelope<E>>)> {
        self.by_tick@.map_values(|b: (u64, VecDeque<EventEnvelope<E>>)| (b.0, b.1@))
    }

    /// The current tick.
    pub closed spec fn now_tick(&self) -> u64 {
        self.now
    }

    /// The id the next event will get.
    pub closed spec fn next_id(&self) -> u64 {
        self.next_id
    }

    pub open spec fn wf(&self) -> bool {
        &&& ticks_increasing(self.buckets())
        &&& self.next_id() >= 1
    }

    pub fn new() -> (q: Self)
        ensures
            q.wf(),
            q.buckets() == Seq::<(u64, Seq<EventEnvelope<E>>)>::empty(),
            q.now_tick() == 0,
            q.next_id() == 1,
    {
        let q = EventQueue { by_tick: Vec::new(), now: 0, next_id: 1 };
        assert(q.buckets() =~= Seq::<(u64, Seq<EventEnvelope<E>>)>::empty());
        q
    }

    fn alloc_id(&mut self) -> (id: u64)
        ensures
            id == old(self).next_id(),
            final(self).next_id() == id_after(old(self).next_id()),
            final(self).buckets() == old(self).buckets(),
            final(self).now_tick() == old(self).now_tick(),
    {
        let id = self.next_id;
        let n = self.next_id.wrapping_add(1);
        self.next_id = if n < 1 { 1 } else { n };
        id
    }

    /// The first bucket whose tick is not below `tick`, or the end.
    fn find_slot(&self, tick: u64) -> (i: usize)
        ensures
            i <= self.buckets().len(),
            forall|j: int| 0 <= j < i ==> #[trigger] self.buckets()[j].0 < tick,
            i < self.buckets().len() ==> self.buckets()[i as int].0 >= tick,
    {
        let mut i: usize = 0;
        while i < self.by_tick.len()
            invariant
                i <= self.by_tick@.len(),
                self.buckets().len() == self.by_tick@.len(),
                forall|j: int| 0 <= j < i ==> #[trigger] self.buckets()[j].0 < tick,
            decreases self.by_tick@.len() - i,
        {
            if self.by_tick[i].0 >= tick {
                return i;
            }
            i = i + 1;
        }
        i
    }

    /// Files `kind` under `tick` and returns its id.
    pub fn emit_at(&mut self, tick: u64, kind: E) -> (id: u64)
        requires
            old(self).wf(),
        ensures
            final(self).wf(),
            id == old(self).next_id(),
            id >= 1,
            final(self).next_id() == id_after(old(self).next_id()),
            final(self).now_tick() == old(self).now_tick(),
            final(self).buckets() == add_event(old(self).buckets(), tick, EventEnvelope { id, tick, kind }),
    {
        let id = self.alloc_id();
        let ghost bs = self.buckets();
        let env = EventEnvelope { id, tick, kind };
        let ghost genv = env;
        let i = self.find_slot(tick);
        proof {
            lemma_add_prefix(bs, tick, genv, i as int);
        }
        if i < self.by_tick.len() && self.by_tick[i].0 == tick {
            let mut b = self.by_tick.remove(i);
            b.1.push_back(env);
            self.by_tick.insert(i, b);
            proof {
                assert(bs.skip(i as int)[0] == bs[i as int]);
                assert(self.buckets() =~= bs.take(i as int) + add_event(bs.skip(i as int), tick, genv));
            }
        } else {
            let mut q: VecDeque<EventEnvelope<E>> = VecDeque::new();
            q.push_back(env);
            self.by_tick.insert(i, (tick, q));
            proof {
                if i < bs.len() {
                    assert(bs.skip(i as int)[0] == bs[i as int]);
                }
                assert(self.buckets() =~= bs.take(i as int) + add_event(bs.skip(i as int), tick, genv));
            }
        }
        proof {
            lemma_add_event_keeps_order(bs, tick, genv);
        }
        id
    }

    /// Files `kind` under the current tick and returns its id.
    pub fn emit_now(&mut self, kind: E) -> (id: u64)
        requires
            old(self).wf(),
        ensures
            final(self).wf(),
            id == old(self).next_id(),
            id >= 1,
            final(self).next_id() == id_after(old(self).next_id()),
            final(self).now_tick() == old(self).now_tick(),
            final(self).buckets() == add_event(old(self).buckets(), old(self).now_tick(), EventEnvelope { id, tick: old(self).now_tick(), kind }),
    {
        let now = self.now;
        self.emit_at(now, kind)
    }

    /// Files `kind` `delta` ticks from now and returns its id.
    pub fn emit_after(&mut self, delta: u64, kind: E) -> (id: u64)
        requires
            old(self).wf(),
            old(self).now_tick() + delta <= u64::MAX,
        ensures
            final(self).wf(),
            id == old(self).next_id(),
            id >= 1,
            final(self).next_id() == id_after(old(self).next_id()),
            final(self).now_tick() == old(self).now_tick(),
            final(self).buckets() == add_event(old(self).buckets(), (old(self).now_tick() + delta) as u64,
                EventEnvelope { id, tick: (old(self).now_tick() + delta) as u64, kind }),
    {
        let t = self.now + delta;
        self.emit_at(t, kind)
    }

    /// Takes the next event due at the current tick, if any.
    pub fn pop_ready(&mut self) -> (r: Option<EventEnvelope<E>>)
        requires
            old(self).wf(),
        ensures
            final(self).wf(),
            (r, final(self).buckets()) == pop_event(old(self).buckets(), old(self).now_tick()),
            final(self).now_tick() == old(self).now_tick(),
            final(self).next_id() == old(self).next_id(),
    {
        let ghost bs = self.buckets();
        let now = self.now;
        let i = self.find_slot(now);
        proof {
            lemma_pop_prefix(bs, now, i as int);
        }
        if i < self.by_tick.len() && self.by_tick[i].0 == now && self.by_tick[i].1.len() > 0 {
            let mut b = self.by_tick.remove(i);
            let r = b.1.pop_front();
            self.by_tick.insert(i, b);
            proof {
                assert(bs.skip(i as int)[0] == bs[i as int]);
                assert(self.buckets() =~= bs.take(i as int) + pop_event(bs.skip(i as int), now).1);
                lemma_pop_event_keeps_order(bs, now);
            }
            r
        } else {
            proof {
                if i < bs.len() {
                    assert(bs.skip(i as int)[0] == bs[i as int]);
                }
                assert(bs =~= bs.take(i as int) + bs.skip(i as int));
            }
            None
        }
    }

    /// Moves to the next tick, first dropping the current tick's bucket if
    /// it is empty. Events left in it stay, and are stale from now on.
    pub fn advance_tick(&mut self)
        requires
            old(self).wf(),
        ensures
            final(self).wf(),
            final(self).buckets() == drop_empty_at(old(self).buckets(), old(self).now_tick()),
            final(self).now_tick() == tick_after(old(self).now_tick()),
            final(self).next_id() == old(self).next_id(),
    {
        let ghost bs = self.buckets();
        let now = self.now;
        let i = self.find_slot(now);
        proof {
            lemma_drop_prefix(bs, now, i as int);
        }
        if i < self.by_tick.len() && self.by_tick[i].0 == now && self.by_tick[i].1.len() == 0 {
            let _ = self.by_tick.remove(i);
            proof {
                assert(bs.skip(i as int)[0] == bs[i as int]);
                assert(self.buckets() =~= bs.take(i as int) + drop_empty_at(bs.skip(i as int), now));
            }
        } else {
            proof {
                if i < bs.len() {
                    assert(bs.skip(i as int)[0] == bs[i as int]);
                }
                assert(bs =~= bs.take(i as int) + bs.skip(i as int));
            }
        }
        proof {
            lemma_drop_empty_keeps_order(bs, now);
        }
        self.now = self.now.wrapping_add(1);
    }

    /// The number of events filed under past ticks, which will never come out.
    pub fn count_stale_events(&self) -> (r: usize)
        requires
            self.wf(),
            stale_count(self.buckets(), self.now_tick()) <= usize::MAX,
        ensures
            r == stale_count(self.buckets(), self.now_tick()),
    {
        let ghost bs = self.buckets();
        let mut total: usize = 0;
        let mut i: usize = 0;
        while i < self.by_tick.len()
            invariant
                bs == self.buckets(),
                bs.len() == self.by_tick@.len(),
                i <= bs.len(),
                total == stale_count(bs.take(i as int), self.now),
                stale_count(bs, self.now) <= usize::MAX,
            decreases bs.len() - i,
        {
            proof {
                assert(bs.take(i + 1).drop_last() =~= bs.take(i as int));
                lemma_stale_count_prefix(bs, self.now, i + 1);
            }
            if self.by_tick[i].0 < self.now {
                total = total + self.by_tick[i].1.len();
            }
            i = i + 1;
        }
        proof {
            assert(bs.take(i as int) =~= bs);
        }
        total
    }

    /// `(tick, count)` for each past tick that still has a bucket, by tick.
    pub fn stale_summary(&self) -> (r: Vec<(u64, usize)>)
        requires
            self.wf(),
        ensures
            r@.len() == stale_listing(self.buckets(), self.now_tick()).len(),
            forall|i: int| 0 <= i < r@.len() ==> (#[trigger] r@[i]).0 == stale_listing(self.buckets(), self.now_tick())[i].0
                && r@[i].1 as int == stale_listing(self.buckets(), self.now_tick())[i].1,
    {
        let ghost bs = self.buckets();
        let mut v: Vec<(u64, usize)> = Vec::new();
        let mut i: usize = 0;
        while i < self.by_tick.len()
            invariant
                bs == self.buckets(),
                bs.len() == self.by_tick@.len(),
                i <= bs.len(),
                v@.len() == stale_listing(bs.take(i as int), self.now).len(),
                forall|k: int| 0 <= k < v@.len() ==> (#[trigger] v@[k]).0 == stale_listing(bs.take(i as int), self.now)[k].0
                    && v@[k].1 as int == stale_listing(bs.take(i as int), self.now)[k].1,
            decreases bs.len() - i,
        {
            proof {
                assert(bs.take(i + 1).drop_last() =~= bs.take(i as int));
            }
            if self.by_tick[i].0 < self.now {
                v.push((self.by_tick[i].0, self.by_tick[i].1.len()));
            }
            i = i + 1;
        }
        proof {
            assert(bs.take(i as int) =~= bs);
        }
        v
    }

    /// The number of queued events, past, present and future, and how many
    /// of them are of each kind, where `kind_of` numbers an event's kind
    /// below `n_kinds`.
    pub fn queued_counts<F: Fn(&E) -> usize>(&self, kind_of: F, n_kinds: usize) -> (r: (usize, Vec<usize>))
        requires
            self.wf(),
            all_queued(self.buckets()).len() <= usize::MAX,
            forall|e: &E| #[trigger] kind_of.requires((e,)),
            forall|e: &E, k: usize| #[trigger] kind_of.ensures((e,), k) ==> k < n_kinds,
            forall|e: &E, a: usize, b: usize| kind_of.ensures((e,), a) && kind_of.ensures((e,), b) ==> a == b,
        ensures
            r.0 == all_queued(self.buckets()).len(),
            r.1@.len() == n_kinds,
            forall|k: int| 0 <= k < n_kinds ==> #[trigger] r.1@[k] == count_kind(kind_of, all_queued(self.buckets()), k as usize),
    {
        let ghost bs = self.buckets();
        let mut counts: Vec<usize> = Vec::new();
        let mut k: usize = 0;
        while k < n_kinds
            invariant
                k <= n_kinds,
                counts@.len() == k,
                forall|m: int| 0 <= m < k ==> #[trigger] counts@[m] == 0,
            decreases n_kinds - k,
        {
            counts.push(0);
            k = k + 1;
        }
        let mut total: usize = 0;
        let mut i: usize = 0;
        while i < self.by_tick.len()
            invariant
                bs == self.buckets(),
                bs.len() == self.by_tick@.len(),
                i <= bs.len(),
                all_queued(bs).len() <= usize::MAX,
                total == all_queued(bs.take(i as int)).len(),
                counts@.len() == n_kinds,
                forall|m: int| 0 <= m < n_kinds ==> #[trigger] counts@[m] == count_kind(kind_of, all_queued(bs.take(i as int)), m as usize),
                forall|e: &E| #[trigger] kind_of.requires((e,)),
                forall|e: &E, k: usize| #[trigger] kind_of.ensures((e,), k) ==> k < n_kinds,
                forall|e: &E, a: usize, b: usize| kind_of.ensures((e,), a) && kind_of.ensures((e,), b) ==> a == b,
            decreases bs.len() - i,
        {
            let q = &self.by_tick[i].1;
            let ghost before = all_queued(bs.take(i as int));
            proof {
                assert(bs.take(i + 1).drop_last() =~= bs.take(i as int));
                assert(all_queued(bs.take(i + 1)) == before + q@);
                lemma_queued_prefix(bs, i + 1);
                assert(q@.take(0) =~= Seq::<EventEnvelope<E>>::empty());
                assert(before + q@.take(0) =~= before);
            }
            let mut j: usize = 0;
            while j < q.len()
                invariant
                    q@ == bs[i as int].1,
                    j <= q@.len(),
                    before.len() + q@.len() <= usize::MAX,
                    total == before.len() + j,
                    counts@.len() == n_kinds,
                    forall|m: int| 0 <= m < n_kinds ==> #[trigger] counts@[m] == count_kind(kind_of, before + q@.take(j as int), m as usize),
                    forall|e: &E| #[trigger] kind_of.requires((e,)),
                    forall|e: &E, k: usize| #[trigger] kind_of.ensures((e,), k) ==> k < n_kinds,
                    forall|e: &E, a: usize, b: usize| kind_of.ensures((e,), a) && kind_of.ensures((e,), b) ==> a == b,
                decreases q@.len() - j,
            {
                let env = &q[j];
                let kind = kind_of(&env.kind);
                let ghost seen = before + q@.take(j as int);
                proof {
                    assert((before + q@.take(j + 1)).drop_last() =~= seen);
                    assert((before + q@.take(j + 1)).last() == q@[j as int]);
                    lemma_count_kind_bound(kind_of, seen, kind);
                }
                let c = counts[kind];
                counts.set(kind, c + 1);
                total = total + 1;
                proof {
                    assert forall|m: int| 0 <= m < n_kinds implies #[trigger] counts@[m] == count_kind(kind_of, before + q@.take(j + 1), m as usize) by {
                        if kind_of.ensures((&q@[j as int].kind,), m as usize) {
                            assert(m as usize == kind);
                        }
                    }
                }
                j = j + 1;
            }
            proof {
                assert(q@.take(j as int) =~= q@);
            }
            i = i + 1;
        }
        proof {
            assert(bs.take(i as int) =~= bs);
        }
        (total, counts)
    }
}

impl<E> Default for EventQueue<E> {
    fn default() -> (q: Self)
        ensures
            q.wf(),
            q.buckets() == Seq::<(u64, Seq<EventEnvelope<E>>)>::empty(),
            q.now_tick() == 0,
            q.next_id() == 1,
    {
        Self::new()
    }
}

/// How many of `s` `kind_of` files under kind `k`.
pub open spec fn count_kind<E, F: Fn(&E) -> usize>(kind_of: F, s: Seq<EventEnvelope<E>>, k: usize) -> nat
    decreases s.len(),
{
    if s.len() == 0 {
        0
    } else {
        count_kind(kind_of, s.drop_last(), k) + if kind_of.ensures((&s.last().kind,), k) { 1nat } else { 0nat }
    }
}

proof fn lemma_count_kind_bound<E, F: Fn(&E) -> usize>(kind_of: F, s: Seq<EventEnvelope<E>>, k: usize)
    ensures
        count_kind(kind_of, s, k) <= s.len(),
    decreases s.len(),
{
    if s.len() > 0 {
        lemma_count_kind_bound(kind_of, s.drop_last(), k);
    }
}

proof fn lemma_queued_prefix<E>(bs: Seq<(u64, Seq<EventEnvelope<E>>)>, i: int)
    requires
        0 <= i <= bs.len(),
    ensures
        all_queued(bs.take(i)).len() <= all_queued(bs).len(),
    decreases bs.len() - i,
{
    if i == bs.len() {
        assert(bs.take(i) =~= bs);
    } else {
        lemma_queued_prefix(bs, i + 1);
        assert(bs.take(i + 1).drop_last() =~= bs.take(i));
    }
}

proof fn lemma_stale_count_prefix<E>(bs: Seq<(u64, Seq<EventEnvelope<E>>)>, now: u64, i: int)
    requires
        0 <= i <= bs.len(),
    ensures
        stale_count(bs.take(i), now) <= stale_count(bs, now),
    decreases bs.len() - i,
{
    if i == bs.len() {
        assert(bs.take(i) =~= bs);
    } else {
        lemma_stale_count_prefix(bs, now, i + 1);
        assert(bs.take(i + 1).drop_last() =~= bs.take(i));
    }
}

proof fn lemma_add_prefix<E>(bs: Seq<(u64, Seq<EventEnvelope<E>>)>, tick: u64, env: EventEnvelope<E>, i: int)
    requires
        0 <= i <= bs.len(),
        forall|j: int| 0 <= j < i ==> #[trigger] bs[j].0 < tick,
    ensures
        add_event(bs, tick, env) == bs.take(i) + add_event(bs.skip(i), tick, env),
    decreases i,
{
    if i == 0 {
        assert(bs.skip(0) =~= bs);
        assert(bs.take(0) + add_event(bs, tick, env) =~= add_event(bs, tick, env));
    } else {
        let rest = bs.drop_first();
        assert forall|j: int| 0 <= j < i - 1 implies #[trigger] rest[j].0 < tick by {
            assert(rest[j] == bs[j + 1]);
        }
        lemma_add_prefix(rest, tick, env, i - 1);
        assert(rest.skip(i - 1) =~= bs.skip(i));
        assert(seq![bs[0]] + rest.take(i - 1) =~= bs.take(i));
        assert(bs[0].0 < tick);
    }
}

proof fn lemma_pop_prefix<E>(bs: Seq<(u64, Seq<EventEnvelope<E>>)>, now: u64, i: int)
    requires
        0 <= i <= bs.len(),
        forall|j: int| 0 <= j < i ==> #[trigger] bs[j].0 < now,
    ensures
        pop_event(bs, now).0 == pop_event(bs.skip(i), now).0,
        pop_event(bs, now).1 == bs.take(i) + pop_event(bs.skip(i), now).1,
    decreases i,
{
    if i == 0 {
        assert(bs.skip(0) =~= bs);
        assert(bs.take(0) + pop_event(bs, now).1 =~= pop_event(bs, now).1);
    } else {
        let rest = bs.drop_first();
        assert forall|j: int| 0 <= j < i - 1 implies #[trigger] rest[j].0 < now by {
            assert(rest[j] == bs[j + 1]);
        }
        lemma_pop_prefix(rest, now, i - 1);
        assert(rest.skip(i - 1) =~= bs.skip(i));
        assert(seq![bs[0]] + rest.take(i - 1) =~= bs.take(i));
        assert(bs[0].0 < now);
    }
}

proof fn lemma_drop_prefix<E>(bs: Seq<(u64, Seq<EventEnvelope<E>>)>, now: u64, i: int)
    requires
        0 <= i <= bs.len(),
        forall|j: int| 0 <= j < i ==> #[trigger] bs[j].0 < now,
    ensures
        drop_empty_at(bs, now) == bs.take(i) + drop_empty_at(bs.skip(i), now),
    decreases i,
{
    if i == 0 {
        assert(bs.skip(0) =~= bs);
        assert(bs.take(0) + drop_empty_at(bs, now) =~= drop_empty_at(bs, now));
    } else {
        let rest = bs.drop_first();
        assert forall|j: int| 0 <= j < i - 1 implies #[trigger] rest[j].0 < now by {
            assert(rest[j] == bs[j + 1]);
        }
        lemma_drop_prefix(rest, now, i - 1);
        assert(rest.skip(i - 1) =~= bs.skip(i));
        assert(seq![bs[0]] + rest.take(i - 1) =~= bs.take(i));
        assert(bs[0].0 < now);
    }
}

/// Filing an event keeps the buckets in tick order, adds `tick`'s bucket
/// if it was missing, and keeps every other bucket's tick.
pub proof fn lemma_add_event_keeps_order<E>(bs: Seq<(u64, Seq<EventEnvelope<E>>)>, tick: u64, env: EventEnvelope<E>)
    requires
        ticks_increasing(bs),
    ensures
        ticks_increasing(add_event(bs, tick, env)),
        forall|t: u64| #[trigger] has_bucket(add_event(bs, tick, env), t) <==> (has_bucket(bs, t) || t == tick),
    decreases bs.len(),
{
    let r = add_event(bs, tick, env);
    if bs.len() == 0 {
        assert(r[0].0 == tick);
    } else if bs[0].0 == tick {
        assert forall|t: u64| has_bucket(r, t) <==> (has_bucket(bs, t) || t == tick) by {
            if has_bucket(r, t) {
                let i = choose|i: int| 0 <= i < r.len() && r[i].0 == t;
                assert(bs[i].0 == t);
            }
            if has_bucket(bs, t) {
                let i = choose|i: int| 0 <= i < bs.len() && bs[i].0 == t;
                assert(r[i].0 == t);
            }
            if t == tick {
                assert(r[0].0 == t);
            }
        }
    } else if bs[0].0 > tick {
        assert forall|i: int, j: int| 0 <= i < j < r.len() implies #[trigger] r[i].0 < #[trigger] r[j].0 by {
            if i > 0 {
                assert(r[i] == bs[i - 1] && r[j] == bs[j - 1]);
            } else {
                assert(r[j] == bs[j - 1]);
                if j > 1 {
                    assert(bs[0].0 < bs[j - 1].0);
                }
            }
        }
        assert forall|t: u64| has_bucket(r, t) <==> (has_bucket(bs, t) || t == tick) by {
            if has_bucket(r, t) {
                let i = choose|i: int| 0 <= i < r.len() && r[i].0 == t;
                if i > 0 {
                    assert(bs[i - 1].0 == t);
                }
            }
            if has_bucket(bs, t) {
                let i = choose|i: int| 0 <= i < bs.len() && bs[i].0 == t;
                assert(r[i + 1].0 == t);
            }
            if t == tick {
                assert(r[0].0 == t);
            }
        }
    } else {
        let rest = bs.drop_first();
        assert forall|i: int, j: int| 0 <= i < j < rest.len() implies #[trigger] rest[i].0 < #[trigger] rest[j].0 by {
            assert(rest[i] == bs[i + 1] && rest[j] == bs[j + 1]);
        }
        lemma_add_event_keeps_order(rest, tick, env);
        let sub = add_event(rest, tick, env);
        assert(r == seq![bs[0]] + sub);
        assert forall|i: int, j: int| 0 <= i < j < r.len() implies #[trigger] r[i].0 < #[trigger] r[j].0 by {
            if i > 0 {
                assert(r[i] == sub[i - 1] && r[j] == sub[j - 1]);
            } else {
                assert(r[j] == sub[j - 1]);
                let t = sub[j - 1].0;
                assert(has_bucket(sub, t));
                if has_bucket(rest, t) {
                    let k = choose|k: int| 0 <= k < rest.len() && rest[k].0 == t;
                    assert(rest[k] == bs[k + 1]);
                    assert(bs[0].0 < bs[k + 1].0);
                }
            }
        }
        assert forall|t: u64| has_bucket(r, t) <==> (has_bucket(bs, t) || t == tick) by {
            if has_bucket(r, t) {
                let i = choose|i: int| 0 <= i < r.len() && r[i].0 == t;
                if i > 0 {
                    assert(sub[i - 1].0 == t);
                    assert(has_bucket(sub, t));
                    if has_bucket(rest, t) {
                        let k = choose|k: int| 0 <= k < rest.len() && rest[k].0 == t;
                        assert(bs[k + 1].0 == t);
                    }
                } else {
                    assert(bs[0].0 == t);
                }
            }
            if has_bucket(bs, t) {
                let i = choose|i: int| 0 <= i < bs.len() && bs[i].0 == t;
                if i > 0 {
                    assert(rest[i - 1].0 == t);
                    assert(has_bucket(rest, t));
                    assert(has_bucket(sub, t));
                    let k = choose|k: int| 0 <= k < sub.len() && sub[k].0 == t;
                    assert(r[k + 1] == sub[k]);
                } else {
                    assert(r[0].0 == t);
                }
            }
            if t == tick {
                assert(has_bucket(sub, t));
                let k = choose|k: int| 0 <= k < sub.len() && sub[k].0 == t;
                assert(r[k + 1] == sub[k]);
            }
        }
    }
}

proof fn lemma_pop_event_keeps_order<E>(bs: Seq<(u64, Seq<EventEnvelope<E>>)>, now: u64)
    requires
        ticks_increasing(bs),
    ensures
        pop_event(bs, now).1.len() == bs.len(),
        forall|i: int| 0 <= i < bs.len() ==> #[trigger] pop_event(bs, now).1[i].0 == bs[i].0,
        ticks_increasing(pop_event(bs, now).1),
    decreases bs.len(),
{
    if bs.len() > 0 && bs[0].0 < now {
        let rest = bs.drop_first();
        assert forall|i: int, j: int| 0 <= i < j < rest.len() implies #[trigger] rest[i].0 < #[trigger] rest[j].0 by {
            assert(rest[i] == bs[i + 1] && rest[j] == bs[j + 1]);
        }
        lemma_pop_event_keeps_order(rest, now);
        let r = pop_event(bs, now).1;
        assert forall|i: int| 0 <= i < bs.len() implies #[trigger] r[i].0 == bs[i].0 by {
            if i > 0 {
                assert(r[i] == pop_event(rest, now).1[i - 1]);
                assert(rest[i - 1] == bs[i]);
            }
        }
    }
}

proof fn lemma_drop_empty_keeps_order<E>(bs: Seq<(u64, Seq<EventEnvelope<E>>)>, now: u64)
    requires
        ticks_increasing(bs),
    ensures
        ticks_increasing(drop_empty_at(bs, now)),
        forall|i: int| 0 <= i < drop_empty_at(bs, now).len() ==> has_bucket(bs, #[trigger] drop_empty_at(bs, now)[i].0),
    decreases bs.len(),
{
    let r = drop_empty_at(bs, now);
    if bs.len() > 0 && bs[0].0 < now {
        let rest = bs.drop_first();
        assert forall|i: int, j: int| 0 <= i < j < rest.len() implies #[trigger] rest[i].0 < #[trigger] rest[j].0 by {
            assert(rest[i] == bs[i + 1] && rest[j] == bs[j + 1]);
        }
        lemma_drop_empty_keeps_order(rest, now);
        let sub = drop_empty_at(rest, now);
        assert forall|i: int| 0 <= i < r.len() implies has_bucket(bs, #[trigger] r[i].0) by {
            if i > 0 {
                assert(r[i] == sub[i - 1]);
                assert(has_bucket(rest, sub[i - 1].0));
                let k = choose|k: int| 0 <= k < rest.len() && rest[k].0 == sub[i - 1].0;
                assert(bs[k + 1] == rest[k]);
            } else {
                assert(bs[0].0 == r[0].0);
            }
        }
        assert forall|i: int, j: int| 0 <= i < j < r.len() implies #[trigger] r[i].0 < #[trigger] r[j].0 by {
            if i > 0 {
                assert(r[i] == sub[i - 1] && r[j] == sub[j - 1]);
            } else {
                assert(r[j] == sub[j - 1]);
                assert(has_bucket(rest, sub[j - 1].0));
                let k = choose|k: int| 0 <= k < rest.len() && rest[k].0 == sub[j - 1].0;
                assert(bs[k + 1] == rest[k]);
            }
        }
    } else if bs.len() > 0 && bs[0].0 == now && bs[0].1.len() == 0 {
        assert forall|i: int, j: int| 0 <= i < j < r.len() implies #[trigger] r[i].0 < #[trigger] r[j].0 by {
            assert(r[i] == bs[i + 1] && r[j] == bs[j + 1]);
        }
        assert forall|i: int| 0 <= i < r.len() implies has_bucket(bs, #[trigger] r[i].0) by {
            assert(r[i] == bs[i + 1]);
        }
    } else {
        assert forall|i: int| 0 <= i < r.len() implies has_bucket(bs, #[trigger] r[i].0) by {
            assert(r[i] == bs[i]);
        }
    }
}

proof fn lemma_queue_at_absent<E>(bs: Seq<(u64, Seq<EventEnvelope<E>>)>, u: u64)
    requires
        forall|i: int| 0 <= i < bs.len() ==> #[trigger] bs[i].0 != u,
    ensures
        queue_at(bs, u) == Seq::<EventEnvelope<E>>::empty(),
    decreases bs.len(),
{
    if bs.len() > 0 {
        let rest = bs.drop_first();
        assert forall|i: int| 0 <= i < rest.len() implies #[trigger] rest[i].0 != u by {
            assert(rest[i] == bs[i + 1]);
        }
        lemma_queue_at_absent(rest, u);
    }
}

proof fn lemma_rest_increasing<E>(bs: Seq<(u64, Seq<EventEnvelope<E>>)>)
    requires
        ticks_increasing(bs),
        bs.len() > 0,
    ensures
        ticks_increasing(bs.drop_first()),
        forall|i: int| 0 <= i < bs.drop_first().len() ==> bs[0].0 < #[trigger] bs.drop_first()[i].0,
{
    let rest = bs.drop_first();
    assert forall|i: int, j: int| 0 <= i < j < rest.len() implies #[trigger] rest[i].0 < #[trigger] rest[j].0 by {
        assert(rest[i] == bs[i + 1] && rest[j] == bs[j + 1]);
    }
    assert forall|i: int| 0 <= i < rest.len() implies bs[0].0 < #[trigger] rest[i].0 by {
        assert(rest[i] == bs[i + 1]);
    }
}

/// Filing an event appends it to the events of its tick and leaves every
/// other tick's events as they were.
pub proof fn lemma_queue_at_after_add<E>(bs: Seq<(u64, Seq<EventEnvelope<E>>)>, tick: u64, env: EventEnvelope<E>, u: u64)
    requires
        ticks_increasing(bs),
    ensures
        queue_at(add_event(bs, tick, env), u) == if u == tick {
            queue_at(bs, tick).push(env)
        } else {
            queue_at(bs, u)
        },
    decreases bs.len(),
{
    let r = add_event(bs, tick, env);
    if bs.len() == 0 {
        assert(r.drop_first() =~= Seq::<(u64, Seq<EventEnvelope<E>>)>::empty());
        assert(queue_at(r.drop_first(), u) =~= Seq::<EventEnvelope<E>>::empty());
        assert(seq![env] =~= Seq::<EventEnvelope<E>>::empty().push(env));
    } else if bs[0].0 == tick {
        assert(r.drop_first() =~= bs.drop_first());
        assert(r[0] == (tick, bs[0].1.push(env)));
    } else if bs[0].0 > tick {
        assert(r.drop_first() =~= bs);
        lemma_rest_increasing(bs);
        if u == tick {
            assert forall|i: int| 0 <= i < bs.len() implies #[trigger] bs[i].0 != u by {
                if i > 0 {
                    assert(bs.drop_first()[i - 1] == bs[i]);
                }
            }
            lemma_queue_at_absent(bs, u);
            assert(seq![env] =~= Seq::<EventEnvelope<E>>::empty().push(env));
        }
    } else {
        lemma_rest_increasing(bs);
        lemma_queue_at_after_add(bs.drop_first(), tick, env, u);
        assert(r.drop_first() =~= add_event(bs.drop_first(), tick, env));
        assert(r[0] == bs[0]);
    }
}

/// `pop_ready`'s step takes the front of the current tick's events, if
/// any, and leaves every other tick's events as they were.
pub proof fn lemma_queue_at_after_pop<E>(bs: Seq<(u64, Seq<EventEnvelope<E>>)>, now: u64, u: u64)
    requires
        ticks_increasing(bs),
    ensures
        pop_event(bs, now).0 == if queue_at(bs, now).len() > 0 {
            Some(queue_at(bs, now)[0])
        } else {
            None::<EventEnvelope<E>>
        },
        queue_at(pop_event(bs, now).1, u) == if u == now && queue_at(bs, now).len() > 0 {
            queue_at(bs, now).drop_first()
        } else {
            queue_at(bs, u)
        },
    decreases bs.len(),
{
    if bs.len() == 0 {
    } else if bs[0].0 == now {
        let r = pop_event(bs, now).1;
        if bs[0].1.len() > 0 {
            assert(r.drop_first() =~= bs.drop_first());
        }
    } else if bs[0].0 > now {
        lemma_rest_increasing(bs);
        assert forall|i: int| 0 <= i < bs.len() implies #[trigger] bs[i].0 != now by {
            if i > 0 {
                assert(bs.drop_first()[i - 1] == bs[i]);
            }
        }
        lemma_queue_at_absent(bs, now);
    } else {
        lemma_rest_increasing(bs);
        lemma_queue_at_after_pop(bs.drop_first(), now, u);
        let r = pop_event(bs, now).1;
        assert(r.drop_first() =~= pop_event(bs.drop_first(), now).1);
    }
}

/// Events filed under one tick come out of that tick in filing order: with
/// nothing yet filed under the current tick, filing `e1` and then `e2`
/// under it and popping twice gives `e1`, then `e2`, and leaves the tick
/// with nothing.
pub proof fn lemma_fifo_within_tick<E>(bs: Seq<(u64, Seq<EventEnvelope<E>>)>, now: u64, e1: EventEnvelope<E>, e2: EventEnvelope<E>)
    requires
        ticks_increasing(bs),
        queue_at(bs, now).len() == 0,
    ensures
        pop_event(add_event(add_event(bs, now, e1), now, e2), now).0 == Some(e1),
        pop_event(pop_event(add_event(add_event(bs, now, e1), now, e2), now).1, now).0 == Some(e2),
        queue_at(pop_event(pop_event(add_event(add_event(bs, now, e1), now, e2), now).1, now).1, now).len() == 0,
{
    let b1 = add_event(bs, now, e1);
    lemma_add_event_keeps_order(bs, now, e1);
    lemma_queue_at_after_add(bs, now, e1, now);
    let b2 = add_event(b1, now, e2);
    lemma_add_event_keeps_order(b1, now, e2);
    lemma_queue_at_after_add(b1, now, e2, now);
    assert(queue_at(b2, now) =~= seq![e1, e2]);
    lemma_queue_at_after_pop(b2, now, now);
    let b3 = pop_event(b2, now).1;
    lemma_pop_event_keeps_order(b2, now);
    lemma_queue_at_after_pop(b3, now, now);
    lemma_pop_event_keeps_order(b3, now);
}

/// Moving past a tick turns what is left of its events into stale events:
/// the stale count grows by exactly the number left.
pub proof fn lemma_advance_makes_stale<E>(bs: Seq<(u64, Seq<EventEnvelope<E>>)>, now: u64)
    requires
        ticks_increasing(bs),
        now < u64::MAX,
    ensures
        stale_count(drop_empty_at(bs, now), tick_after(now)) == stale_count(bs, now) + queue_at(bs, now).len(),
    decreases bs.len(),
{
    lemma_stale_count_split(bs, now);
    lemma_stale_count_drop_empty(bs, now);
}

/// Counting past `now + 1` counts past `now` plus the bucket of `now`.
proof fn lemma_stale_count_split<E>(bs: Seq<(u64, Seq<EventEnvelope<E>>)>, now: u64)
    requires
        ticks_increasing(bs),
        now < u64::MAX,
    ensures
        stale_count(bs, (now + 1) as u64) == stale_count(bs, now) + queue_at(bs, now).len(),
    decreases bs.len(),
{
    if bs.len() > 0 {
        let init = bs.drop_last();
        assert forall|i: int, j: int| 0 <= i < j < init.len() implies #[trigger] init[i].0 < #[trigger] init[j].0 by {
            assert(init[i] == bs[i] && init[j] == bs[j]);
        }
        lemma_stale_count_split(init, now);
        lemma_queue_at_last(bs, now);
        if bs.last().0 == now {
            assert forall|i: int| 0 <= i < init.len() implies #[trigger] init[i].0 != now by {
                assert(init[i] == bs[i]);
                assert(bs[i].0 < bs[bs.len() - 1].0);
            }
            lemma_queue_at_absent(init, now);
        }
    }
}

/// The bucket of `u` is found in the first `len - 1` buckets unless it is
/// the last one.
proof fn lemma_queue_at_last<E>(bs: Seq<(u64, Seq<EventEnvelope<E>>)>, u: u64)
    requires
        ticks_increasing(bs),
        bs.len() > 0,
    ensures
        queue_at(bs, u) == if bs.last().0 == u { bs.last().1 } else { queue_at(bs.drop_last(), u) },
    decreases bs.len(),
{
    if bs.len() == 1 {
        assert(bs.drop_last() =~= Seq::<(u64, Seq<EventEnvelope<E>>)>::empty());
        assert(bs.drop_first() =~= Seq::<(u64, Seq<EventEnvelope<E>>)>::empty());
    } else {
        let rest = bs.drop_first();
        lemma_rest_increasing(bs);
        lemma_queue_at_last(rest, u);
        assert(rest.last() == bs.last());
        assert(rest.drop_last() =~= bs.drop_last().drop_first());
        assert(bs.drop_last()[0] == bs[0]);
        if bs[0].0 == u {
            assert(bs[0].0 < bs.last().0);
        }
    }
}

proof fn lemma_stale_count_drop_empty<E>(bs: Seq<(u64, Seq<EventEnvelope<E>>)>, now: u64)
    requires
        ticks_increasing(bs),
        now < u64::MAX,
    ensures
        stale_count(drop_empty_at(bs, now), (now + 1) as u64) == stale_count(bs, (now + 1) as u64),
    decreases bs.len(),
{
    if bs.len() > 0 {
        lemma_stale_count_first(bs, (now + 1) as u64);
        if bs[0].0 == now {
            if bs[0].1.len() == 0 {
            }
        } else if bs[0].0 < now {
            lemma_rest_increasing(bs);
            lemma_stale_count_drop_empty(bs.drop_first(), now);
            let sub = drop_empty_at(bs.drop_first(), now);
            lemma_stale_count_first(seq![bs[0]] + sub, (now + 1) as u64);
            assert((seq![bs[0]] + sub).drop_first() =~= sub);
        }
    }
}

/// `stale_count` taken from the front: the first bucket, then the rest.
proof fn lemma_stale_count_first<E>(bs: Seq<(u64, Seq<EventEnvelope<E>>)>, now: u64)
    requires
        bs.len() > 0,
    ensures
        stale_count(bs, now) == (if bs[0].0 < now { bs[0].1.len() as int } else { 0 }) + stale_count(bs.drop_first(), now),
    decreases bs.len(),
{
    if bs.len() == 1 {
        assert(bs.drop_last() =~= Seq::<(u64, Seq<EventEnvelope<E>>)>::empty());
        assert(bs.drop_first() =~= Seq::<(u64, Seq<EventEnvelope<E>>)>::empty());
    } else {
        let init = bs.drop_last();
        lemma_stale_count_first(init, now);
        assert(init.drop_first() =~= bs.drop_first().drop_last());
        assert(bs.drop_first().last() == bs.last());
        assert(init[0] == bs[0]);
    }
}

} // verus!
