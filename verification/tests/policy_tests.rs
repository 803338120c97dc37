use time_back::policy::{
    should_credit, should_flush, TrackingConfig, LONG_GAP_MS, SAVE_INTERVAL_MS, SHORT_GAP_MS,
};

fn config_with(labels: &[&str]) -> TrackingConfig {
    let mut cfg = TrackingConfig::new();
    for l in labels {
        cfg.toggle_long_tracking(l.to_string());
    }
    cfg
}

#[test]
fn short_gap_is_credited_for_everyone() {
    let plain = TrackingConfig::new();
    let long = config_with(&["editor"]);
    for gap in [0, 1, SHORT_GAP_MS - 1, SHORT_GAP_MS] {
        assert!(should_credit(&"editor".to_string(), 1000, 1000 + gap, &plain));
        assert!(should_credit(&"editor".to_string(), 1000, 1000 + gap, &long));
    }
}

#[test]
fn mid_gap_is_credited_only_for_long_tracking() {
    let plain = TrackingConfig::new();
    let long = config_with(&["editor"]);
    for gap in [SHORT_GAP_MS + 1, 60_000, LONG_GAP_MS] {
        assert!(!should_credit(&"editor".to_string(), 0, gap, &plain));
        assert!(should_credit(&"editor".to_string(), 0, gap, &long));
        assert!(!should_credit(&"browser".to_string(), 0, gap, &long));
    }
}

#[test]
fn long_gap_is_never_credited() {
    let long = config_with(&["editor"]);
    for gap in [LONG_GAP_MS + 1, LONG_GAP_MS * 2] {
        assert!(!should_credit(&"editor".to_string(), 0, gap, &long));
    }
}

#[test]
fn clock_running_backwards_counts_as_no_gap() {
    let plain = TrackingConfig::new();
    assert!(should_credit(&"editor".to_string(), 5000, 1000, &plain));
}

#[test]
fn toggle_is_reflected_in_the_next_decision() {
    let mut cfg = TrackingConfig::new();
    let app = "editor".to_string();
    let mid_gap = SHORT_GAP_MS + 1;
    assert!(!should_credit(&app, 0, mid_gap, &cfg));
    cfg.toggle_long_tracking(app.clone());
    assert!(should_credit(&app, 0, mid_gap, &cfg));
    cfg.toggle_long_tracking(app.clone());
    assert!(!should_credit(&app, 0, mid_gap, &cfg));
}

#[test]
fn toggle_keeps_other_labels() {
    let mut cfg = config_with(&["a", "b"]);
    cfg.toggle_long_tracking("a".to_string());
    assert!(!cfg.is_long_tracking(&"a".to_string()));
    assert!(cfg.is_long_tracking(&"b".to_string()));
}

#[test]
fn flush_is_due_only_after_the_interval() {
    assert!(!should_flush(1000, 1000 + SAVE_INTERVAL_MS));
    assert!(should_flush(1000, 1000 + SAVE_INTERVAL_MS + 1));
    assert!(!should_flush(10_000, 0));
}

#[test]
fn fresh_config_is_unconfigured() {
    let cfg = TrackingConfig::new();
    assert!(cfg.output_directory.is_none());
    assert!(!cfg.is_long_tracking(&"anything".to_string()));
}
