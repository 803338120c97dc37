use time_back::policy::{TrackingConfig, DEBOUNCE_MS, SAVE_INTERVAL_MS, SHORT_GAP_MS, TICK_MS};
use time_back::sampler::{tick, SamplerState, TickObservation};
use time_back::store::AggregateStore;

fn quiet_obs(now_ms: u64) -> TickObservation {
    TickObservation {
        now_ms,
        mouse_x: 0,
        mouse_y: 0,
        buttons: Vec::new(),
        keys: Vec::new(),
        active_app: Some("editor".to_string()),
    }
}

fn value_of(store: &AggregateStore, label: &str) -> u64 {
    store
        .pairs()
        .into_iter()
        .find(|(k, _)| k == label)
        .map(|(_, v)| v)
        .unwrap_or(0)
}

fn fresh() -> (SamplerState, TrackingConfig, AggregateStore, AggregateStore) {
    let state = SamplerState { last_input_ms: 0, last_save_ms: 0, mouse_x: 0, mouse_y: 0 };
    (state, TrackingConfig::new(), AggregateStore::new(), AggregateStore::new())
}

#[test]
fn active_app_is_credited_within_the_short_gap() {
    let (mut state, cfg, mut act, mut stats) = fresh();
    tick(&mut state, &quiet_obs(SHORT_GAP_MS), &cfg, &mut act, &mut stats);
    assert_eq!(value_of(&act, "editor"), TICK_MS);
}

#[test]
fn idle_app_is_not_credited_past_the_short_gap() {
    let (mut state, cfg, mut act, mut stats) = fresh();
    tick(&mut state, &quiet_obs(SHORT_GAP_MS + 1), &cfg, &mut act, &mut stats);
    assert_eq!(value_of(&act, "editor"), 0);
}

#[test]
fn long_tracking_membership_changes_the_very_next_tick() {
    let (mut state, mut cfg, mut act, mut stats) = fresh();
    let idle = SHORT_GAP_MS + 1;
    tick(&mut state, &quiet_obs(idle), &cfg, &mut act, &mut stats);
    assert_eq!(value_of(&act, "editor"), 0);
    cfg.toggle_long_tracking("editor".to_string());
    tick(&mut state, &quiet_obs(idle + 1), &cfg, &mut act, &mut stats);
    assert_eq!(value_of(&act, "editor"), TICK_MS);
}

#[test]
fn a_failed_window_query_credits_the_empty_label() {
    let (mut state, cfg, mut act, mut stats) = fresh();
    let mut obs = quiet_obs(100);
    obs.active_app = None;
    tick(&mut state, &obs, &cfg, &mut act, &mut stats);
    assert_eq!(value_of(&act, ""), TICK_MS);
}

#[test]
fn input_resets_the_idle_clock_and_is_counted_once_debounced() {
    let (mut state, cfg, mut act, mut stats) = fresh();
    let mut obs = quiet_obs(DEBOUNCE_MS + 1);
    obs.mouse_x = 10;
    obs.keys.push("A".to_string());
    obs.buttons = vec![false, true];
    tick(&mut state, &obs, &cfg, &mut act, &mut stats);
    assert_eq!(state.last_input_ms, DEBOUNCE_MS + 1);
    assert_eq!(state.mouse_x, 10);
    assert_eq!(value_of(&stats, "Mouse move"), 1);
    assert_eq!(value_of(&stats, "Mouse click: 1"), 1);
    assert_eq!(value_of(&stats, "Mouse click: 0"), 0);
    assert_eq!(value_of(&stats, "A"), 1);
}

#[test]
fn input_within_the_debounce_window_is_not_counted() {
    let (mut state, cfg, mut act, mut stats) = fresh();
    let mut obs = quiet_obs(DEBOUNCE_MS);
    obs.mouse_x = 5;
    tick(&mut state, &obs, &cfg, &mut act, &mut stats);
    assert_eq!(value_of(&stats, "Mouse move"), 0);
    // The idle clock still resets: the motion was real input.
    assert_eq!(state.last_input_ms, DEBOUNCE_MS);
}

#[test]
fn input_counters_never_decrease_over_many_ticks() {
    let (mut state, cfg, mut act, mut stats) = fresh();
    let mut last = 0;
    for t in 1..40u64 {
        let mut obs = quiet_obs(t * 100);
        obs.mouse_x = t as i32;
        tick(&mut state, &obs, &cfg, &mut act, &mut stats);
        let now = value_of(&stats, "Mouse move");
        assert!(now >= last);
        last = now;
    }
    assert_eq!(last, 39);
}

#[test]
fn flush_becomes_due_after_the_save_interval() {
    let (mut state, cfg, mut act, mut stats) = fresh();
    assert!(!tick(&mut state, &quiet_obs(SAVE_INTERVAL_MS), &cfg, &mut act, &mut stats));
    assert!(tick(&mut state, &quiet_obs(SAVE_INTERVAL_MS + 1), &cfg, &mut act, &mut stats));
    assert_eq!(state.last_save_ms, SAVE_INTERVAL_MS + 1);
    // Right after a flush the next one is not due yet.
    assert!(!tick(
        &mut state,
        &quiet_obs(SAVE_INTERVAL_MS + 2),
        &cfg,
        &mut act,
        &mut stats
    ));
}
