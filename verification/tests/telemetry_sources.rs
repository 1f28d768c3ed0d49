use openentropy_core::metrics::telemetry::{snapshot_order, MetricKey};
use openentropy_core::metrics::telemetry_sources::{
    boot_time_seconds, hwmon_fallback_label, hwmon_input_kind, hwmon_label_file_name,
    hwmon_metric_key, meminfo_metric_name, vm_stat_metric_name, HwmonKind,
};
use openentropy_core::text::parse_u64;

fn metric(domain: &str, name: &str, unit: &str, source: &str) -> MetricKey {
    MetricKey {
        domain: domain.to_string(),
        name: name.to_string(),
        unit: unit.to_string(),
        source: source.to_string(),
    }
}

#[test]
fn meminfo_entries_map_to_memory_metrics() {
    assert_eq!(meminfo_metric_name("MemTotal").as_deref(), Some("total_bytes"));
    assert_eq!(meminfo_metric_name("MemAvailable").as_deref(), Some("available_bytes"));
    assert_eq!(meminfo_metric_name("SwapCached").as_deref(), Some("swap_cached_bytes"));
    assert_eq!(meminfo_metric_name("Active"), None);
    assert_eq!(meminfo_metric_name("memtotal"), None);
    assert_eq!(meminfo_metric_name(" MemTotal"), None);
}

#[test]
fn vm_stat_keys_are_trimmed_before_mapping() {
    assert_eq!(vm_stat_metric_name("Pages free").as_deref(), Some("free_bytes"));
    assert_eq!(vm_stat_metric_name("  Pages wired down ").as_deref(), Some("wired_bytes"));
    assert_eq!(
        vm_stat_metric_name("Pages occupied by compressor").as_deref(),
        Some("compressed_bytes")
    );
    assert_eq!(vm_stat_metric_name("Pages purgeable"), None);
}

#[test]
fn hwmon_inputs_are_classified_by_prefix() {
    assert_eq!(hwmon_input_kind("temp1_input"), Some(HwmonKind::Thermal));
    assert_eq!(hwmon_input_kind("in0_input"), Some(HwmonKind::Voltage));
    assert_eq!(hwmon_input_kind("curr1_input"), Some(HwmonKind::Current));
    assert_eq!(hwmon_input_kind("power1_input"), Some(HwmonKind::Power));
    assert_eq!(hwmon_input_kind("fan2_input"), Some(HwmonKind::Cooling));
    assert_eq!(hwmon_input_kind("temp1_label"), None);
    assert_eq!(hwmon_input_kind("humidity1_input"), None);
    assert_eq!(hwmon_input_kind("_input"), None);
}

#[test]
fn hwmon_kinds_carry_domain_unit_and_scale() {
    let k = HwmonKind::Power;
    assert_eq!((k.domain(), k.unit(), k.divisor()), ("power".to_string(), "W".to_string(), 1_000_000));
    let k = HwmonKind::Thermal;
    assert_eq!((k.domain(), k.unit(), k.divisor()), ("thermal".to_string(), "C".to_string(), 1000));
    let k = HwmonKind::Cooling;
    assert_eq!((k.domain(), k.unit(), k.divisor()), ("cooling".to_string(), "rpm".to_string(), 1));
}

#[test]
fn hwmon_label_files_and_keys() {
    assert_eq!(hwmon_label_file_name("temp1_input"), "temp1_label");
    assert_eq!(hwmon_label_file_name("in_input_input"), "in_label_label");
    assert_eq!(hwmon_fallback_label("temp1_input"), "temp1");
    assert_eq!(hwmon_fallback_label("Fan 2_input_input"), "fan_2");
    assert_eq!(hwmon_metric_key("coretemp", "package_id_0"), "coretemp.package_id_0");
}

#[test]
fn boot_time_is_read_from_the_sec_field() {
    assert_eq!(boot_time_seconds("{ sec = 1700000000, usec = 123456 } Tue Nov 14 22:13:20 2023"), Some(1_700_000_000));
    assert_eq!(boot_time_seconds("{ sec = 42, usec = 0 }"), Some(42));
    // Without a comma after it, the field runs on to the closing brace.
    assert_eq!(boot_time_seconds("{ sec = 42 }"), None);
    assert_eq!(boot_time_seconds("{ usec = 5, x = 1 }"), Some(5));
    assert_eq!(boot_time_seconds("{ sec = -1, usec = 0 }"), None);
    assert_eq!(boot_time_seconds("uptime unknown"), None);
}

#[test]
fn decimal_parse_follows_std() {
    for s in ["0", "42", "+7", "18446744073709551615", "", "+", "-1", " 1", "1 ", "18446744073709551616", "0x10", "007"] {
        assert_eq!(parse_u64(s), s.parse::<u64>().ok(), "input {s:?}");
    }
}

#[test]
fn snapshot_order_sorts_stably() {
    let keys = vec![
        metric("thermal", "cpu", "C", "b"),
        metric("memory", "free_bytes", "bytes", "procfs"),
        metric("thermal", "cpu", "C", "a"),
        metric("memory", "free_bytes", "bytes", "procfs"),
        metric("memory", "free_bytes", "pages", "procfs"),
        metric("frequency", "cpu0_hz", "Hz", "cpufreq"),
    ];
    assert_eq!(snapshot_order(&keys), vec![5, 1, 3, 4, 2, 0]);
    assert!(snapshot_order(&[]).is_empty());
}
