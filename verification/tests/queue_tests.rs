use geist::event::EventQueue;

#[derive(Debug, PartialEq)]
enum Ev {
    Tick,
    Placed(i32),
    Removed(i32),
}

fn kind_index(e: &Ev) -> usize {
    match e {
        Ev::Tick => 0,
        Ev::Placed(_) => 1,
        Ev::Removed(_) => 2,
    }
}

#[test]
fn ids_start_at_one_and_count_up() {
    let mut q: EventQueue<Ev> = EventQueue::new();
    assert_eq!(q.emit_now(Ev::Tick), 1);
    assert_eq!(q.emit_at(5, Ev::Placed(1)), 2);
    assert_eq!(q.emit_after(3, Ev::Removed(2)), 3);
}

#[test]
fn same_tick_events_pop_in_filing_order() {
    let mut q: EventQueue<Ev> = EventQueue::new();
    q.emit_now(Ev::Placed(1));
    q.emit_now(Ev::Placed(2));
    q.emit_now(Ev::Removed(3));
    let a = q.pop_ready().unwrap();
    let b = q.pop_ready().unwrap();
    let c = q.pop_ready().unwrap();
    assert_eq!((a.id, a.tick, a.kind), (1, 0, Ev::Placed(1)));
    assert_eq!((b.id, b.kind), (2, Ev::Placed(2)));
    assert_eq!((c.id, c.kind), (3, Ev::Removed(3)));
    assert!(q.pop_ready().is_none());
}

#[test]
fn future_events_wait_for_their_tick() {
    let mut q: EventQueue<Ev> = EventQueue::default();
    q.emit_after(2, Ev::Placed(7));
    assert!(q.pop_ready().is_none());
    q.advance_tick();
    assert!(q.pop_ready().is_none());
    q.advance_tick();
    assert_eq!(q.now, 2);
    let e = q.pop_ready().unwrap();
    assert_eq!((e.tick, e.kind), (2, Ev::Placed(7)));
}

#[test]
fn unpopped_events_become_stale() {
    let mut q: EventQueue<Ev> = EventQueue::new();
    q.emit_now(Ev::Tick);
    q.emit_now(Ev::Tick);
    q.emit_at(1, Ev::Placed(1));
    q.pop_ready();
    assert_eq!(q.count_stale_events(), 0);
    q.advance_tick();
    assert_eq!(q.count_stale_events(), 1);
    assert_eq!(q.stale_summary(), vec![(0, 1)]);
    q.advance_tick();
    assert_eq!(q.count_stale_events(), 2);
    assert_eq!(q.stale_summary(), vec![(0, 1), (1, 1)]);
}

#[test]
fn emptied_current_bucket_is_dropped_on_advance() {
    let mut q: EventQueue<Ev> = EventQueue::new();
    q.emit_now(Ev::Tick);
    q.pop_ready();
    q.advance_tick();
    assert_eq!(q.count_stale_events(), 0);
    assert!(q.stale_summary().is_empty());
}

#[test]
fn events_filed_in_the_past_are_stale_at_once() {
    let mut q: EventQueue<Ev> = EventQueue::new();
    q.advance_tick();
    q.advance_tick();
    q.emit_at(0, Ev::Removed(1));
    assert_eq!(q.count_stale_events(), 1);
    assert!(q.pop_ready().is_none());
}

#[test]
fn queued_counts_by_kind() {
    let mut q: EventQueue<Ev> = EventQueue::new();
    q.emit_now(Ev::Tick);
    q.emit_at(3, Ev::Placed(1));
    q.emit_at(3, Ev::Placed(2));
    q.emit_at(1, Ev::Removed(2));
    let (total, by_kind) = q.queued_counts(kind_index, 3);
    assert_eq!(total, 4);
    assert_eq!(by_kind, vec![1, 2, 1]);
}
