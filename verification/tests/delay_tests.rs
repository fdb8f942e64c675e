use rustbrush::painting::delay::AdaptiveDelay;

#[test]
fn test_initial_delay() {
    let delay = AdaptiveDelay::new(15);
    assert_eq!(delay.current_ms(), 15);
}

#[test]
fn test_fixed_delay_doesnt_change() {
    let mut delay = AdaptiveDelay::fixed(15);
    for _ in 0..100 {
        delay.report_success();
    }
    assert_eq!(delay.current_ms(), 15);
    delay.report_failure();
    assert_eq!(delay.current_ms(), 15);
}

#[test]
fn test_speedup_after_threshold() {
    let mut delay = AdaptiveDelay::new(100);
    for _ in 0..50 {
        delay.report_success();
    }
    assert!(delay.current_ms() < 100);
    assert_eq!(delay.current_ms(), 90);
}

#[test]
fn test_slowdown_on_failure() {
    let mut delay = AdaptiveDelay::new(20);
    delay.report_failure();
    assert_eq!(delay.current_ms(), 30);
}

#[test]
fn test_min_max_bounds() {
    let mut delay = AdaptiveDelay::new(6);
    for _ in 0..50 {
        delay.report_success();
    }
    assert!(delay.current_ms() >= 5);

    let mut delay = AdaptiveDelay::new(180);
    delay.report_failure();
    delay.report_failure();
    delay.report_failure();
    assert!(delay.current_ms() <= 200);
}

#[test]
fn test_failure_resets_success_counter() {
    let mut delay = AdaptiveDelay::new(100);
    for _ in 0..49 {
        delay.report_success();
    }
    delay.report_failure();
    delay.report_success();
    assert!(delay.current_ms() >= 100);
}

#[test]
fn speedup_rounds_down_and_stops_at_minimum() {
    let mut delay = AdaptiveDelay::new(15);
    for _ in 0..50 {
        delay.report_success();
    }
    assert_eq!(delay.current_ms(), 13);
    let mut low = AdaptiveDelay::new(5);
    for _ in 0..50 {
        low.report_success();
    }
    assert_eq!(low.current_ms(), 5);
    assert!(low.is_adaptive());
    assert!(!AdaptiveDelay::fixed(3).is_adaptive());
}

#[test]
fn slowdown_caps_at_maximum() {
    let mut delay = AdaptiveDelay::new(150);
    delay.report_failure();
    assert_eq!(delay.current_ms(), 200);
    let mut odd = AdaptiveDelay::new(7);
    odd.report_failure();
    assert_eq!(odd.current_ms(), 10);
}
