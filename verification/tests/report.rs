use fleetcheck::check::{HostOutcome, HostReport, Metric, Violation};
use fleetcheck::metrics::Metrics;
use fleetcheck::float::{f32_fixed, Num};
use fleetcheck::report::{
    any_bad, render_table, report_row, sort_reports, summary_line, CellColor,
};
use std::time::Duration;

fn ok_report(name: &str, violations: Vec<Violation>) -> HostReport {
    HostReport {
        name: name.into(),
        outcome: HostOutcome::Reached {
            metrics: Metrics {
                uptime_secs: Duration::from_secs(3_600).as_secs(),
                disk_pct: 50,
                temp_c: Some(45.0f32.to_bits()),
                load_1m: 0.5f32.to_bits(),
                mem_pct: 30,
                swap_pct: Some(5),
                proc_count: Some(150),
                ip_addr: None,
            },
            violations,
        },
    }
}

fn unreachable_report(name: &str, error: &str) -> HostReport {
    HostReport {
        name: name.into(),
        outcome: HostOutcome::Unreachable { error: error.into() },
    }
}

#[test]
fn summary_line_all_healthy() {
    let reports = vec![ok_report("a", vec![]), ok_report("b", vec![])];
    let s = summary_line(&reports);
    assert!(s.contains("all 2 hosts healthy"), "got: {s}");
}

#[test]
fn summary_line_counts_failures() {
    let reports = vec![
        ok_report("a", vec![]),
        ok_report(
            "b",
            vec![Violation { metric: Metric::Disk, value: Num::U64(99), limit: Num::U64(85) }],
        ),
        unreachable_report("c", "connection refused"),
    ];
    let s = summary_line(&reports);
    assert!(s.contains("1 unreachable"), "got: {s}");
    assert!(s.contains("1 with warnings"), "got: {s}");
    assert!(s.contains("of 3 hosts"), "got: {s}");
}

#[test]
fn render_table_includes_host_names_and_status() {
    let reports = vec![ok_report("alpha", vec![]), unreachable_report("beta", "no route to host")];
    let t = render_table(&reports);
    assert!(t.contains("alpha"));
    assert!(t.contains("beta"));
    assert!(t.contains("OK"));
    assert!(t.contains("UNREACHABLE"));
}

#[test]
fn render_table_marks_warn_on_violations() {
    let reports = vec![ok_report(
        "alpha",
        vec![Violation { metric: Metric::Disk, value: Num::U64(99), limit: Num::U64(85) }],
    )];
    let t = render_table(&reports);
    assert!(t.contains("WARN"), "got: {t}");
}

#[test]
fn summary_line_exact_text_when_not_a_terminal() {
    let reports = vec![ok_report("a", vec![]), unreachable_report("b", "x")];
    assert_eq!(summary_line(&reports), "\u{2717} 1 unreachable, 0 with warnings (of 2 hosts)");
    assert_eq!(summary_line(&[]), "\u{2713} all 0 hosts healthy");
}

#[test]
fn rows_carry_text_and_colors() {
    let r = ok_report(
        "alpha",
        vec![Violation { metric: Metric::Mem, value: Num::U64(1), limit: Num::U64(0) }],
    );
    let row = report_row(&r);
    let texts: Vec<&str> = row.iter().map(|c| c.text.as_str()).collect();
    assert_eq!(texts, vec!["alpha", "WARN", "1h 0m", "50", "45.0", "0.50", "30", "5", "150"]);
    assert!(matches!(row[1].color, Some(CellColor::Yellow)));
    assert!(matches!(row[6].color, Some(CellColor::Red)) && row[6].bold);
    assert!(matches!(row[3].color, Some(CellColor::Green)) && !row[3].bold);

    let u = report_row(&unreachable_report("beta", "boom"));
    assert_eq!(u.len(), 9);
    assert_eq!(u[1].text, "UNREACHABLE (boom)");
    assert!(matches!(u[1].color, Some(CellColor::Red)));
    assert_eq!(u[8].text, "\u{2014}");
}

#[test]
fn float_rendering_matches_std_formatting() {
    let s = |x: f32, d: u32| f32_fixed(x.to_bits(), d).into_iter().collect::<String>();
    let values = [
        48.312f32, 0.17, 2.0, 0.045, 0.05, 0.15, 99.96, -0.04, -2.5, 48.35, 0.165, 0.125, 0.375,
        1e-45, -0.0, 0.0, 1e30, 3.4028235e38, 123456.79, 0.005, 0.015, 2.675, f32::NAN,
        f32::INFINITY, f32::NEG_INFINITY, -1e-40,
    ];
    for x in values {
        assert_eq!(s(x, 1), format!("{x:.1}"), "{x:?} with 1 decimal");
        assert_eq!(s(x, 2), format!("{x:.2}"), "{x:?} with 2 decimals");
    }
    assert_eq!(s(48.35, 1), "48.3");
    assert_eq!(s(0.165, 2), "0.17");
}

#[test]
fn reports_sort_by_name() {
    let reports = vec![
        unreachable_report("pihole", "x"),
        ok_report("airquality", vec![]),
        ok_report("homebridge", vec![]),
        unreachable_report("counterpoint", "y"),
    ];
    let sorted = sort_reports(reports);
    let names: Vec<&str> = sorted.iter().map(|r| r.name.as_str()).collect();
    assert_eq!(names, vec!["airquality", "counterpoint", "homebridge", "pihole"]);
}

#[test]
fn any_bad_matches_is_bad() {
    assert!(!any_bad(&[]));
    assert!(!any_bad(&[ok_report("a", vec![])]));
    assert!(any_bad(&[ok_report("a", vec![]), unreachable_report("b", "x")]));
}

#[test]
fn sort_keeps_the_order_of_equal_names() {
    let reports = vec![
        unreachable_report("pihole", "first"),
        ok_report("airquality", vec![]),
        unreachable_report("pihole", "second"),
        unreachable_report("airquality", "third"),
    ];
    let sorted = sort_reports(reports);
    let keys: Vec<String> = sorted
        .iter()
        .map(|r| match &r.outcome {
            HostOutcome::Unreachable { error } => format!("{}:{}", r.name, error),
            HostOutcome::Reached { .. } => format!("{}:ok", r.name),
        })
        .collect();
    assert_eq!(keys, vec!["airquality:ok", "airquality:third", "pihole:first", "pihole:second"]);
}

#[test]
fn render_table_shows_header_then_rows_in_order() {
    let reports = vec![unreachable_report("zeta", "timed out"), ok_report("alpha", vec![])];
    let t = render_table(&reports);
    let pos = |needle: &str| t.find(needle).unwrap_or_else(|| panic!("{needle} missing in {t}"));
    for label in ["host", "status", "uptime", "disk %", "temp \u{b0}C", "load 1m", "mem %", "swap %", "procs"] {
        assert!(t.contains(label), "{label} missing");
    }
    assert!(pos("procs") < pos("zeta"));
    assert!(pos("zeta") < pos("UNREACHABLE (timed out)"));
    assert!(pos("UNREACHABLE (timed out)") < pos("alpha"));
    assert!(pos("alpha") < pos("1h 0m"));
    assert!(t.contains("0.50"));
    assert!(t.contains("45.0"));
}
