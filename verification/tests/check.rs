use fleetcheck::check::{
    backoff_delay_ms, backoff_with_jitter, evaluate, finish_check, metric_value_by_name, retry_step,
    HostOutcome, HostReport, Metric, RetryStep, Violation,
};
use fleetcheck::config::{CustomThresholds, Thresholds};
use fleetcheck::float::Num;
use fleetcheck::metrics::Metrics;
use std::time::Duration;

/// A custom limit, as the bits of its `f64`.
fn lim(x: f64) -> u64 {
    x.to_bits()
}

/// The `f64` a checked number stands for.
fn as_f64(n: &Num) -> f64 {
    match n {
        Num::U64(x) => *x as f64,
        Num::F32(b) => f32::from_bits(*b) as f64,
        Num::F64(b) => f64::from_bits(*b),
    }
}

fn th() -> Thresholds {
    Thresholds {
        disk_pct: 85,
        temp_c: 75.0f32.to_bits(),
        load_1m: 2.0f32.to_bits(),
        mem_pct: 90,
        swap_pct: None,
        proc_count: None,
        custom: CustomThresholds::new(),
    }
}

fn metrics(
    disk_pct: u8,
    temp_c: Option<f32>,
    load_1m: f32,
    mem_pct: u8,
    swap_pct: Option<u8>,
    proc_count: Option<u32>,
) -> Metrics {
    Metrics {
        uptime_secs: Duration::from_secs(1).as_secs(),
        disk_pct,
        temp_c: temp_c.map(f32::to_bits),
        load_1m: load_1m.to_bits(),
        mem_pct,
        swap_pct,
        proc_count,
        ip_addr: None,
    }
}

#[test]
fn flags_high_disk_only() {
    let m = metrics(90, Some(50.0), 0.5, 40, None, None);
    let v = evaluate(&m, &th());
    assert_eq!(v.len(), 1);
    assert!(matches!(v[0].metric, Metric::Disk));
}

#[test]
fn missing_temp_is_not_a_violation() {
    let m = metrics(10, None, 0.1, 10, None, None);
    assert!(evaluate(&m, &th()).is_empty());
}

#[test]
fn flags_all_typed_metrics_when_all_exceed() {
    let mut t = th();
    t.swap_pct = Some(50);
    t.proc_count = Some(500);
    let m = metrics(99, Some(99.0), 9.9, 99, Some(99), Some(999));
    let v = evaluate(&m, &t);
    assert_eq!(v.len(), 6);
}

#[test]
fn equal_to_threshold_is_not_a_violation() {
    let mut t = th();
    t.swap_pct = Some(50);
    t.proc_count = Some(500);
    t.custom.insert("disk_pct".into(), lim(85.0));
    let m = metrics(85, Some(75.0), 2.0, 90, Some(50), Some(500));
    assert!(evaluate(&m, &t).is_empty());
}

#[test]
fn typed_swap_and_proc_thresholds_trip() {
    let mut t = th();
    t.swap_pct = Some(50);
    t.proc_count = Some(500);
    let m = metrics(0, None, 0.0, 0, Some(60), Some(600));
    let v = evaluate(&m, &t);
    assert_eq!(v.len(), 2);
    assert!(v.iter().any(|x| matches!(x.metric, Metric::Swap)));
    assert!(v.iter().any(|x| matches!(x.metric, Metric::Proc)));
}

#[test]
fn typed_swap_threshold_skipped_when_metric_absent() {
    let mut t = th();
    t.swap_pct = Some(50);
    let m = metrics(0, None, 0.0, 0, None, None);
    assert!(evaluate(&m, &t).is_empty());
}

#[test]
fn custom_threshold_trips_on_known_metric() {
    let mut t = th();
    t.custom.insert("proc_count".into(), lim(100.0));
    let m = metrics(0, None, 0.0, 0, None, Some(101));
    let v = evaluate(&m, &t);
    assert_eq!(v.len(), 1);
    match &v[0].metric {
        Metric::Custom(name) => assert_eq!(name, "proc_count"),
        other => panic!("expected Custom, got {other:?}"),
    }
}

#[test]
fn custom_shadows_typed_threshold_for_same_key() {
    let mut t = th();
    t.custom.insert("disk_pct".into(), lim(90.0));
    let m = metrics(87, None, 0.0, 0, None, None);
    let v = evaluate(&m, &t);
    assert!(
        v.is_empty(),
        "expected custom to shadow typed, got {v:?}"
    );
}

#[test]
fn custom_shadow_does_not_double_fire() {
    let mut t = th();
    t.custom.insert("disk_pct".into(), lim(90.0));
    let m = metrics(95, None, 0.0, 0, None, None);
    let v = evaluate(&m, &t);
    assert_eq!(v.len(), 1);
    match &v[0].metric {
        Metric::Custom(name) => assert_eq!(name, "disk_pct"),
        other => panic!("expected single Custom violation, got {other:?}"),
    }
}

#[test]
fn custom_threshold_for_unknown_metric_is_silently_ignored() {
    let mut t = th();
    t.custom.insert("unknown_future_metric".into(), lim(0.0));
    let m = metrics(0, None, 0.0, 0, None, None);
    assert!(evaluate(&m, &t).is_empty());
}

fn healthy_metrics() -> Metrics {
    Metrics {
        uptime_secs: Duration::from_secs(0).as_secs(),
        disk_pct: 0,
        temp_c: None,
        load_1m: 0.0f32.to_bits(),
        mem_pct: 0,
        swap_pct: None,
        proc_count: None,
        ip_addr: None,
    }
}

#[test]
fn is_bad_false_for_clean_ok() {
    let r = HostReport {
        name: "a".into(),
        outcome: HostOutcome::Reached { metrics: healthy_metrics(), violations: vec![] },
    };
    assert!(!r.is_bad());
}

#[test]
fn is_bad_true_for_violations() {
    let r = HostReport {
        name: "a".into(),
        outcome: HostOutcome::Reached {
            metrics: healthy_metrics(),
            violations: vec![Violation {
                metric: Metric::Disk,
                value: Num::U64(99),
                limit: Num::U64(85),
            }],
        },
    };
    assert!(r.is_bad());
}

#[test]
fn is_bad_true_for_unreachable() {
    let r = HostReport {
        name: "a".into(),
        outcome: HostOutcome::Unreachable { error: "boom".into() },
    };
    assert!(r.is_bad());
}

#[test]
fn backoff_grows_then_caps_within_jitter_bounds() {
    let cases: &[(u32, u64, u64)] = &[
        (0, 160, 240),
        (1, 320, 480),
        (2, 640, 960),
        (3, 1280, 1920),
        (4, 2560, 3840),
        (5, 4000, 6000),
        (20, 4000, 6000),
    ];
    for &(attempt, lo, hi) in cases {
        let d = backoff_with_jitter(attempt);
        assert!(
            d >= lo && d <= hi,
            "attempt {attempt} produced {d}ms, expected [{lo}, {hi}]",
        );
    }
}

#[test]
fn backoff_delay_exact_values() {
    // nanos % 40001 == 20000 means no jitter
    assert_eq!(backoff_delay_ms(0, 20_000), 200);
    assert_eq!(backoff_delay_ms(3, 20_000), 1600);
    assert_eq!(backoff_delay_ms(9, 20_000), 5000);
    // extremes of the jitter window
    assert_eq!(backoff_delay_ms(0, 0), 160);
    assert_eq!(backoff_delay_ms(0, 40_000), 240);
    assert_eq!(backoff_delay_ms(5, 40_000), 6000);
    // truncation toward zero: 200 * -1 / 100000 rounds to 0
    assert_eq!(backoff_delay_ms(0, 19_999), 200);
    assert_eq!(backoff_delay_ms(0, 40_001), 160);
}

#[test]
fn retry_decisions() {
    assert!(matches!(retry_step(0, 0, false), RetryStep::Done));
    assert!(matches!(retry_step(0, 3, true), RetryStep::Done));
    assert!(matches!(retry_step(0, 3, false), RetryStep::Retry { next_attempt: 1 }));
    assert!(matches!(retry_step(2, 3, false), RetryStep::Retry { next_attempt: 3 }));
    assert!(matches!(retry_step(3, 3, false), RetryStep::Done));
}

#[test]
fn retry_loop_gives_up_after_attempts() {
    // attempts=2 means up to 3 invocations (0, 1, 2).
    let mut calls = 0u32;
    let mut attempt = 0u32;
    loop {
        calls += 1;
        match retry_step(attempt, 2, false) {
            RetryStep::Done => break,
            RetryStep::Retry { next_attempt } => attempt = next_attempt,
        }
    }
    assert_eq!(calls, 3);
}

#[test]
fn finish_check_evaluates_or_marks_unreachable() {
    let r = finish_check("a".into(), Ok(metrics(99, None, 0.0, 0, None, None)), &th());
    assert_eq!(r.name, "a");
    match &r.outcome {
        HostOutcome::Reached { violations, .. } => {
            assert_eq!(violations.len(), 1);
            assert_eq!(as_f64(&violations[0].value), 99.0);
            assert_eq!(as_f64(&violations[0].limit), 85.0);
        }
        _ => panic!("expected a reached host"),
    }
    let r = finish_check("b".into(), Err("connection refused".into()), &th());
    match &r.outcome {
        HostOutcome::Unreachable { error } => assert_eq!(error, "connection refused"),
        _ => panic!("expected an unreachable host"),
    }
}

#[test]
fn metric_values_by_name() {
    let mut m = metrics(42, Some(48.312), 0.17, 31, None, Some(7));
    m.uptime_secs = 100;
    let v = |k: &str| metric_value_by_name(&m, k).map(|n| as_f64(&n));
    assert_eq!(v("disk_pct"), Some(42.0));
    assert_eq!(v("temp_c"), Some(48.312f32 as f64));
    assert_eq!(v("load_1m"), Some(0.17f32 as f64));
    assert_eq!(v("mem_pct"), Some(31.0));
    assert_eq!(v("swap_pct"), None);
    assert_eq!(v("proc_count"), Some(7.0));
    assert_eq!(v("uptime_secs"), Some(100.0));
    assert_eq!(v("temp_millic"), None);
}

#[test]
fn float_comparisons_follow_ieee() {
    let mut t = th();
    // 2.0004 is above a 2.0 limit
    assert_eq!(evaluate(&metrics(0, None, 2.0004, 0, None, None), &t).len(), 1);
    // NaN never trips; an infinite load always does
    assert!(evaluate(&metrics(0, Some(f32::NAN), f32::NAN, 0, None, None), &t).is_empty());
    assert_eq!(evaluate(&metrics(0, None, f32::INFINITY, 0, None, None), &t).len(), 1);
    // -0.0 equals 0.0
    t.load_1m = 0.0f32.to_bits();
    assert!(evaluate(&metrics(0, None, -0.0, 0, None, None), &t).is_empty());
    // a custom f64 limit against an f32 temperature, compared exactly
    let mut t = th();
    t.custom.insert("temp_c".into(), lim(48.312));
    let v = evaluate(&metrics(0, Some(48.312), 0.0, 0, None, None), &t);
    assert_eq!(v.len(), (48.312f32 as f64 > 48.312f64) as usize);
    // uptime converts to f64 with rounding, as `as f64` does
    let mut t = th();
    t.custom.insert("uptime_secs".into(), lim(9_007_199_254_740_992.0));
    let mut m = metrics(0, None, 0.0, 0, None, None);
    m.uptime_secs = 9_007_199_254_740_993;
    assert_eq!(evaluate(&m, &t).len(), 0);
    m.uptime_secs = 9_007_199_254_740_995;
    assert_eq!(evaluate(&m, &t).len(), 1);
    m.uptime_secs = u64::MAX;
    assert_eq!(metric_value_by_name(&m, "uptime_secs").map(|n| as_f64(&n)), Some(u64::MAX as f64));
}

#[test]
fn custom_violations_follow_name_order() {
    let mut t = th();
    t.custom.insert("uptime_secs".into(), lim(10.0));
    t.custom.insert("mem_pct".into(), lim(1.0));
    let mut m = metrics(0, None, 0.0, 5, None, None);
    m.uptime_secs = 11;
    let v = evaluate(&m, &t);
    let names: Vec<String> = v
        .iter()
        .map(|x| match &x.metric {
            Metric::Custom(n) => n.clone(),
            _ => String::from("typed"),
        })
        .collect();
    assert_eq!(names, vec!["mem_pct", "uptime_secs"]);
}
