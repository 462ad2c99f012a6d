use fleetcheck::metrics::{format_uptime, parse, Metrics, ParseError};
use std::time::Duration;

/// The collector's output as metrics, the float text converted as the
/// binary converts it.
fn read(raw: &str) -> Metrics {
    let r = parse(raw).ok().unwrap();
    let temp = r.temp_millic.as_ref().map(|t| (t.parse::<f32>().unwrap() / 1000.0).to_bits());
    let load = r.load_1m.parse::<f32>().unwrap().to_bits();
    r.into_metrics(temp, load)
}

fn temp_c(m: &Metrics) -> Option<f32> {
    m.temp_c.map(f32::from_bits)
}

fn load(m: &Metrics) -> f32 {
    f32::from_bits(m.load_1m)
}

#[test]
fn parses_healthy_pi_output() {
    let raw = "\
uptime_secs=359245
disk_pct=42
temp_millic=48312
load_1m=0.17
mem_pct=31
";
    let m = read(raw);
    assert_eq!(m.uptime_secs, Duration::from_secs(359_245).as_secs());
    assert_eq!(m.disk_pct, 42);
    assert!((temp_c(&m).unwrap() - 48.312).abs() < 1e-3);
    assert!((load(&m) - 0.17).abs() < 1e-6);
    assert_eq!(m.mem_pct, 31);
}

#[test]
fn empty_temp_is_none() {
    let raw = "\
uptime_secs=1
disk_pct=1
temp_millic=
load_1m=0.0
mem_pct=1
";
    let m = read(raw);
    assert!(m.temp_c.is_none());
}

#[test]
fn missing_required_metric_errors() {
    let raw = "uptime_secs=1\ndisk_pct=1\ntemp_millic=\nload_1m=0.0\n";
    assert!(parse(raw).is_err());
}

#[test]
fn uptime_formatting() {
    assert_eq!(format_uptime(Duration::from_secs(30).as_secs()), "30s");
    assert_eq!(format_uptime(Duration::from_secs(125).as_secs()), "2m");
    assert_eq!(format_uptime(Duration::from_secs(3_700).as_secs()), "1h 1m");
    assert_eq!(format_uptime(Duration::from_secs(90_000).as_secs()), "1d 1h");
}

#[test]
fn uptime_formatting_edges() {
    assert_eq!(format_uptime(0), "0s");
    assert_eq!(format_uptime(59), "59s");
    assert_eq!(format_uptime(60), "1m");
    assert_eq!(format_uptime(3_600), "1h 0m");
    assert_eq!(format_uptime(86_400), "1d 0h");
    assert_eq!(format_uptime(10 * 86_400 + 23 * 3_600 + 59 * 60 + 59), "10d 23h");
}

#[test]
fn missing_key_names_the_first_missing_metric() {
    match parse("disk_pct=1\nload_1m=0\nmem_pct=1\n") {
        Err(ParseError::Missing(k)) => assert_eq!(k, "uptime_secs"),
        _ => panic!("expected a missing-key error"),
    }
    match parse("uptime_secs=1\ndisk_pct=1\nload_1m=0\n") {
        Err(ParseError::Missing(k)) => assert_eq!(k, "mem_pct"),
        _ => panic!("expected a missing-key error"),
    }
}

#[test]
fn malformed_line_is_reported_trimmed() {
    match parse("uptime_secs=1\n   garbage here  \n") {
        Err(ParseError::MalformedLine(l)) => assert_eq!(l, "garbage here"),
        _ => panic!("expected a malformed-line error"),
    }
}

#[test]
fn invalid_number_is_reported() {
    match parse("uptime_secs=1\ndisk_pct=256\nload_1m=0\nmem_pct=1\n") {
        Err(ParseError::InvalidValue { key, value }) => {
            assert_eq!(key, "disk_pct");
            assert_eq!(value, "256");
        }
        _ => panic!("expected an invalid-value error"),
    }
    assert!(parse("uptime_secs=-1\ndisk_pct=1\nload_1m=0\nmem_pct=1\n").is_err());
    assert!(parse("uptime_secs=1\ndisk_pct=1\nload_1m=.\nmem_pct=1\n").is_err());
    assert!(parse("uptime_secs=1\ndisk_pct=1\nload_1m=abc\nmem_pct=1\n").is_err());
}

#[test]
fn unknown_keys_and_blank_lines_are_ignored() {
    let raw = "\n  uptime_secs=5  \r\nfuture_key=whatever\n\ndisk_pct=+7\nload_1m=1.5\nmem_pct=2\n\n";
    let m = read(raw);
    assert_eq!(m.uptime_secs, 5);
    assert_eq!(m.disk_pct, 7);
    assert_eq!(load(&m), 1.5);
    assert_eq!(m.mem_pct, 2);
    assert!(m.swap_pct.is_none() && m.proc_count.is_none() && m.ip_addr.is_none());
}

#[test]
fn later_lines_override_earlier_ones() {
    let raw = "uptime_secs=1\nuptime_secs=2\ndisk_pct=1\nload_1m=0\nmem_pct=1\ntemp_millic=5\ntemp_millic=\n";
    let m = read(raw);
    assert_eq!(m.uptime_secs, 2);
    assert!(m.temp_c.is_none());
}

#[test]
fn optional_metrics_are_read() {
    let raw = "uptime_secs=1\ndisk_pct=1\nload_1m=0.123456\nmem_pct=1\nswap_pct=12\nproc_count=345\ntemp_millic=-2500\n";
    let m = read(raw);
    assert_eq!(m.swap_pct, Some(12));
    assert_eq!(m.proc_count, Some(345));
    assert_eq!(temp_c(&m), Some(-2.5));
    assert_eq!(load(&m), 0.123456f32);
}

#[test]
fn an_ip_addr_line_is_an_unknown_key() {
    let base = "uptime_secs=1\ndisk_pct=1\nload_1m=0.5\nmem_pct=1\n";
    let with = parse(&format!("{base}ip_addr=10.0.0.7\n")).ok().unwrap();
    let without = parse(base).ok().unwrap();
    assert_eq!(with.load_1m, without.load_1m);
    assert!(read(&format!("{base}ip_addr=10.0.0.7\n")).ip_addr.is_none());
}

#[test]
fn values_keep_their_full_precision() {
    let raw = "uptime_secs=1\ndisk_pct=1\nload_1m=2.0004\nmem_pct=1\ntemp_millic=48312.7\n";
    let m = read(raw);
    assert_eq!(load(&m), 2.0004f32);
    assert_eq!(temp_c(&m), Some(48312.7f32 / 1000.0));
}

#[test]
fn float_text_is_accepted_exactly_where_f32_parsing_succeeds() {
    let cases = [
        "0", "0.17", "1e3", "2.5E-1", "+.5e+1", "1.e1", "-3e-2", "inf", "-INF", "Infinity", "nan",
        "NaN", "+nan", "1e30", "1e99999", "48312.7", "00012", ".", "", "e3", "1e", "1e+", ".e1",
        "1e3.5", "abc", "1_0", " 1", "0x10", "infinit", "nana", "--1", "+-1", "1..2", "1.2.3",
        "1e-", "١", "1E5", "5.", ".5",
    ];
    for v in cases {
        let raw = format!("uptime_secs=1\ndisk_pct=1\nload_1m={v}\nmem_pct=1\n");
        assert_eq!(parse(&raw).is_ok(), v.parse::<f32>().is_ok(), "load_1m={v:?}");
    }
}
