use fleetcheck::config::{
    effective_retries, ssh_destination, CustomThresholds, HostConfig, PartialThresholds, Thresholds,
};

/// A custom limit, as the bits of its `f64`.
fn lim(x: f64) -> u64 {
    x.to_bits()
}

fn defaults() -> Thresholds {
    Thresholds {
        disk_pct: 85,
        temp_c: 75.0f32.to_bits(),
        load_1m: 2.0f32.to_bits(),
        mem_pct: 90,
        swap_pct: None,
        proc_count: None,
        custom: CustomThresholds::new(),
    }
}

#[test]
fn merge_prefers_override_when_present() {
    let over = PartialThresholds { disk_pct: Some(95), ..Default::default() };
    let merged = defaults().merged(Some(&over));
    assert_eq!(merged.disk_pct, 95);
    assert_eq!(merged.temp_c, 75.0f32.to_bits());
    assert_eq!(merged.mem_pct, 90);
}

#[test]
fn merge_returns_global_when_no_override() {
    let merged = defaults().merged(None);
    assert_eq!(merged.disk_pct, 85);
}

#[test]
fn merge_overlays_custom_map_per_key() {
    let mut global = defaults();
    global.custom.insert("disk_pct".into(), lim(90.0));
    global.custom.insert("proc_count".into(), lim(500.0));

    let mut over = PartialThresholds::default();
    over.custom.insert("proc_count".into(), lim(1000.0));
    over.custom.insert("swap_pct".into(), lim(50.0));

    let merged = global.merged(Some(&over));
    assert_eq!(merged.custom.get("disk_pct"), Some(lim(90.0)));
    assert_eq!(merged.custom.get("proc_count"), Some(lim(1000.0)));
    assert_eq!(merged.custom.get("swap_pct"), Some(lim(50.0)));
}

#[test]
fn custom_map_keeps_names_sorted_and_unique() {
    let mut c = CustomThresholds::new();
    assert!(c.is_empty());
    assert_eq!(c.insert("swap_pct".into(), 1), None);
    assert_eq!(c.insert("disk_pct".into(), 2), None);
    assert_eq!(c.insert("mem_pct".into(), 3), None);
    assert_eq!(c.insert("disk_pct".into(), 4), Some(2));
    assert_eq!(c.len(), 3);
    let names: Vec<String> = (0..c.len()).map(|i| c.key_at(i)).collect();
    assert_eq!(names, vec!["disk_pct", "mem_pct", "swap_pct"]);
    assert_eq!(c.limit_at(0), 4);
    assert!(c.contains_key("mem_pct"));
    assert!(!c.contains_key("mem"));
    assert_eq!(c.get("nothing"), None);
}

#[test]
fn merge_keeps_unset_typed_limits_and_takes_set_ones() {
    let mut t = defaults();
    t.swap_pct = Some(40);
    let over = PartialThresholds {
        load_1m: Some(4.5f32.to_bits()),
        proc_count: Some(700),
        ..Default::default()
    };
    let m = t.merged(Some(&over));
    assert_eq!(m.load_1m, 4.5f32.to_bits());
    assert_eq!(m.swap_pct, Some(40));
    assert_eq!(m.proc_count, Some(700));
    assert_eq!(m.disk_pct, 85);
}

fn host(addr: Option<&str>, retries: Option<u32>) -> HostConfig {
    HostConfig {
        addr: addr.map(|s| s.to_string()),
        user: None,
        port: None,
        thresholds: None,
        retries,
    }
}

#[test]
fn destination_defaults_to_the_entry_name() {
    assert_eq!(ssh_destination("pihole", &host(None, None)), "pihole");
    assert_eq!(ssh_destination("counterpoint", &host(Some("counterpoint.lan"), None)), "counterpoint.lan");
}

#[test]
fn cli_retries_win_when_set() {
    assert_eq!(effective_retries(3, &host(None, Some(2))), 3);
    assert_eq!(effective_retries(0, &host(None, Some(2))), 2);
    assert_eq!(effective_retries(0, &host(None, None)), 0);
}

fn custom_entries(c: &CustomThresholds) -> Vec<(String, u64)> {
    (0..c.len()).map(|i| (c.key_at(i), c.limit_at(i))).collect()
}

#[test]
fn merging_the_same_overrides_twice_changes_nothing_more() {
    let mut global = defaults();
    global.custom.insert("disk_pct".into(), lim(90.0));
    let mut over = PartialThresholds { mem_pct: Some(70), swap_pct: Some(20), ..Default::default() };
    over.custom.insert("proc_count".into(), lim(800.0));
    over.custom.insert("disk_pct".into(), lim(60.0));

    let once = global.merged(Some(&over));
    let twice = once.merged(Some(&over));
    assert_eq!(twice.disk_pct, once.disk_pct);
    assert_eq!(twice.temp_c, once.temp_c);
    assert_eq!(twice.load_1m, once.load_1m);
    assert_eq!(twice.mem_pct, 70);
    assert_eq!(twice.swap_pct, Some(20));
    assert_eq!(twice.proc_count, once.proc_count);
    assert_eq!(custom_entries(&twice.custom), custom_entries(&once.custom));
    assert_eq!(
        custom_entries(&once.custom),
        vec![("disk_pct".to_string(), lim(60.0)), ("proc_count".to_string(), lim(800.0))]
    );
}
