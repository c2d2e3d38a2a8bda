use geist::coords::ChunkCoord;
use geist::intents::{
    flush_order, frame_cap, lane_budget, merge_intent, plan_flush, FlushSettings, IntentCause, IntentEntry,
    PendingIntent,
};
use geist::minimap::minimap_side_px;
use geist::session::FinalizeState;

fn item(x: i32, y: i32, z: i32, cause: IntentCause, last_tick: u64, inflight: bool, ready: bool) -> PendingIntent {
    PendingIntent {
        coord: ChunkCoord::new(x, y, z),
        entry: IntentEntry { rev: 1, cause, last_tick },
        inflight_covers: inflight,
        ready,
    }
}

fn sample_items() -> Vec<PendingIntent> {
    vec![
        item(3, 0, 0, IntentCause::Light, 100, false, false),
        item(0, 0, 1, IntentCause::Edit, 100, false, false),
        item(1, 0, 0, IntentCause::Edit, 0, false, false),
        item(0, 0, 0, IntentCause::StreamLoad, 100, false, false),
        item(2, 2, 0, IntentCause::StreamLoad, 100, false, false),
        item(1, 1, 0, IntentCause::HotReload, 100, false, false),
        item(0, 1, 0, IntentCause::Light, 100, true, false),
        item(1, 0, 1, IntentCause::StreamLoad, 100, false, true),
    ]
}

fn settings(cap: usize) -> FlushSettings {
    FlushSettings {
        cam: ChunkCoord::new(0, 0, 0),
        now: 100,
        cap,
        budget_edit: 1,
        budget_light: 2,
        budget_bg: 2,
        view_radius: 2,
    }
}

#[test]
fn flush_order_by_cause_distance_and_age() {
    let items = sample_items();
    assert_eq!(flush_order(&items, &settings(8)), vec![2, 1, 6, 0, 3, 7, 4, 5]);
}

#[test]
fn flush_respects_budgets_gates_and_flight() {
    let items = sample_items();
    assert_eq!(plan_flush(&items, &settings(8)), vec![2, 0, 3, 5]);
}

#[test]
fn flush_stops_at_the_cap() {
    let items = sample_items();
    assert_eq!(plan_flush(&items, &settings(2)), vec![2, 0]);
    assert!(plan_flush(&items, &settings(0)).is_empty());
}

#[test]
fn flush_of_nothing() {
    assert!(plan_flush(&Vec::new(), &settings(8)).is_empty());
}

#[test]
fn equal_keys_keep_item_order() {
    let items = vec![
        item(1, 0, 0, IntentCause::Edit, 100, false, false),
        item(-1, 0, 0, IntentCause::Edit, 100, false, false),
        item(0, 1, 0, IntentCause::Edit, 100, false, false),
    ];
    assert_eq!(flush_order(&items, &settings(8)), vec![0, 1, 2]);
}

#[test]
fn merging_requests() {
    let first = merge_intent(None, 3, IntentCause::StreamLoad, 10);
    assert_eq!(first, IntentEntry { rev: 3, cause: IntentCause::StreamLoad, last_tick: 10 });
    let second = merge_intent(Some(first), 2, IntentCause::Edit, 11);
    assert_eq!(second, IntentEntry { rev: 3, cause: IntentCause::Edit, last_tick: 11 });
    let third = merge_intent(Some(second), 9, IntentCause::HotReload, 12);
    assert_eq!(third, IntentEntry { rev: 9, cause: IntentCause::Edit, last_tick: 12 });
}

#[test]
fn frame_cap_and_lane_budget() {
    assert_eq!(frame_cap(1), 8);
    assert_eq!(frame_cap(3), 12);
    assert_eq!(lane_budget(0, 1, 1), 2);
    assert_eq!(lane_budget(4, 2, 1), 4);
    assert_eq!(lane_budget(2, 10, 0), 0);
}

#[test]
fn finalize_only_once_when_everything_is_ready() {
    let mut st = FinalizeState::default();
    assert!(!st.schedule_finalize(true, false));
    st.owner_neg_x_ready = true;
    st.owner_neg_y_ready = true;
    st.owner_neg_z_ready = true;
    assert!(!st.schedule_finalize(false, false));
    assert!(!st.schedule_finalize(true, true));
    assert!(st.schedule_finalize(true, false));
    assert!(st.finalize_requested);
    assert!(!st.schedule_finalize(true, false));
}

#[test]
fn minimap_side() {
    assert_eq!(minimap_side_px(-1), 0);
    assert_eq!(minimap_side_px(0), 220);
    assert_eq!(minimap_side_px(5), 300);
    assert_eq!(minimap_side_px(12), 412);
    assert_eq!(minimap_side_px(13), 420);
    assert_eq!(minimap_side_px(1000), 420);
}
