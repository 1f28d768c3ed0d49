use openentropy_core::metrics::experimental::quantum_proxy_v3::{
    adaptive_bin_count, binned_histograms, bytes_to_bin, category_from_label, circular_shift_copy,
    null_shifts, parse_source_category, split_windows, StressSweepConfig,
};
use openentropy_core::metrics::standard::compressed_len;
use openentropy_core::metrics::streams::{
    select_named_samples, to_named_streams, SourceRawStreamSample,
};
use openentropy_core::metrics::telemetry::{align_metrics, elapsed_ms, normalize_key, MetricKey};
use openentropy_core::source::SourceCategory;

#[test]
fn parse_source_category_trims_and_lowercases() {
    assert_eq!(parse_source_category("  Thermal "), Some(SourceCategory::Thermal));
    assert_eq!(parse_source_category("TIMING"), Some(SourceCategory::Timing));
    assert_eq!(parse_source_category("io"), Some(SourceCategory::IO));
    assert_eq!(parse_source_category("\tGPU\n"), Some(SourceCategory::GPU));
    assert_eq!(parse_source_category("sensor"), Some(SourceCategory::Sensor));
    assert_eq!(parse_source_category("hardware"), None);
    assert_eq!(parse_source_category(""), None);
    assert_eq!(category_from_label("Thermal"), None);
}

#[test]
fn category_label_roundtrip() {
    for c in [
        SourceCategory::Thermal,
        SourceCategory::Timing,
        SourceCategory::Scheduling,
        SourceCategory::IO,
        SourceCategory::IPC,
        SourceCategory::Microarch,
        SourceCategory::GPU,
        SourceCategory::Network,
        SourceCategory::System,
        SourceCategory::Composite,
        SourceCategory::Signal,
        SourceCategory::Sensor,
    ] {
        assert_eq!(parse_source_category(&c.to_string()), Some(c));
    }
    assert_eq!(SourceCategory::CrossDomain.to_string(), "cross_domain");
}

#[test]
fn stress_sweep_defaults() {
    let c = StressSweepConfig::default_for_parallelism(Some(4));
    assert!(c.enabled);
    assert_eq!(c.warmup_ms, 180);
    assert_eq!(c.cpu_threads, 3);
    assert_eq!(c.memory_threads, 1);
    assert_eq!(c.memory_megabytes_per_thread, 64);
    assert_eq!(c.scheduler_threads, 2);
    assert_eq!(StressSweepConfig::default_for_parallelism(None).cpu_threads, 1);
    assert_eq!(StressSweepConfig::default_for_parallelism(Some(1)).cpu_threads, 1);
    assert_eq!(StressSweepConfig::default_for_parallelism(Some(64)).cpu_threads, 8);
}

#[test]
fn adaptive_bins_round_sqrt_and_clamp() {
    assert_eq!(adaptive_bin_count(0), 8);
    assert_eq!(adaptive_bin_count(64), 8);
    assert_eq!(adaptive_bin_count(100), 10);
    assert_eq!(adaptive_bin_count(110), 10);
    assert_eq!(adaptive_bin_count(111), 11);
    assert_eq!(adaptive_bin_count(1000), 32);
    assert_eq!(adaptive_bin_count(4096), 64);
    assert_eq!(adaptive_bin_count(1_000_000), 64);
}

#[test]
fn bytes_to_bin_scales() {
    assert_eq!(bytes_to_bin(0, 8), 0);
    assert_eq!(bytes_to_bin(255, 8), 7);
    assert_eq!(bytes_to_bin(128, 8), 4);
    assert_eq!(bytes_to_bin(200, 0), 0);
}

#[test]
fn circular_shift_rotates() {
    assert_eq!(circular_shift_copy(&[1, 2, 3, 4, 5], 2), vec![3, 4, 5, 1, 2]);
    assert_eq!(circular_shift_copy(&[1, 2, 3], 3), vec![1, 2, 3]);
    assert_eq!(circular_shift_copy(&[1, 2, 3], 4), vec![2, 3, 1]);
    assert_eq!(circular_shift_copy(&[], 5), Vec::<u8>::new());
}

#[test]
fn split_windows_cases() {
    let data: Vec<u8> = (0..10).collect();
    let w = split_windows(&data, 3, 2);
    assert_eq!(w, vec![&data[0..3], &data[3..6], &data[6..9]]);
    let w = split_windows(&data, 2, 4);
    assert_eq!(w, vec![&data[0..5], &data[5..10]]);
    let w = split_windows(&data, 5, 4);
    assert_eq!(w, vec![&data[0..4], &data[4..8]]);
    assert!(split_windows(&data, 0, 2).is_empty());
    assert!(split_windows(&data, 3, 11).is_empty());
}

#[test]
fn normalize_key_cases() {
    assert_eq!(normalize_key("CPU Die Temp (C)"), "cpu_die_temp_c");
    assert_eq!(normalize_key("__a--b__"), "a_b");
    assert_eq!(normalize_key(""), "");
    assert_eq!(normalize_key("***"), "");
    assert_eq!(normalize_key("x1"), "x1");
}

#[test]
fn elapsed_ms_saturates() {
    assert_eq!(elapsed_ms(100, 350), 250);
    assert_eq!(elapsed_ms(350, 100), 0);
}

#[test]
fn compressed_len_reports_zlib_size() {
    assert_eq!(compressed_len(&[]), None);
    let zeros = vec![0u8; 4096];
    let n = compressed_len(&zeros).unwrap();
    assert!(n > 0 && n < 100);
    let varied: Vec<u8> = (0..4096u32).map(|i| (i.wrapping_mul(2654435761u32) >> 24) as u8).collect();
    let m = compressed_len(&varied).unwrap();
    assert!(m > n);
}

fn sample(name: &str, category: &str, data: &[u8]) -> SourceRawStreamSample {
    SourceRawStreamSample {
        name: name.to_string(),
        category: category.to_string(),
        data: data.to_vec(),
    }
}

#[test]
fn named_streams_keep_order() {
    let samples = vec![sample("a", "timing", &[1, 2]), sample("b", "io", &[3])];
    let streams = to_named_streams(&samples);
    assert_eq!(streams, vec![("a".to_string(), vec![1, 2]), ("b".to_string(), vec![3])]);
    let sel = select_named_samples(&samples, &["b".to_string()]);
    assert_eq!(sel.len(), 1);
    assert_eq!(sel[0].name, "b");
    assert_eq!(sel[0].data, vec![3]);
    let copy = samples[0].copy();
    assert_eq!(copy.category, "timing");
}

fn key(domain: &str, name: &str, unit: &str, source: &str) -> MetricKey {
    MetricKey {
        domain: domain.to_string(),
        name: name.to_string(),
        unit: unit.to_string(),
        source: source.to_string(),
    }
}

#[test]
fn align_metrics_matches_last_and_orders() {
    let start = vec![
        key("cpu", "temp", "C", "s1"),
        key("mem", "used", "B", "s2"),
        key("cpu", "load", "%", "s1"),
        key("cpu", "temp", "C", "s0"),
    ];
    let end = vec![
        key("mem", "used", "B", "s2"),
        key("cpu", "temp", "C", "s1"),
        key("cpu", "temp", "C", "s1"),
        key("cpu", "load", "%", "s1"),
    ];
    assert_eq!(align_metrics(&start, &end), vec![(2, 3), (0, 2), (1, 0)]);
}

#[test]
fn align_metrics_keeps_start_order_among_equals() {
    let start = vec![key("d", "n", "u2", "s"), key("d", "n", "u1", "s")];
    let end = vec![key("d", "n", "u1", "s"), key("d", "n", "u2", "s")];
    assert_eq!(align_metrics(&start, &end), vec![(0, 1), (1, 0)]);
    assert!(align_metrics(&start, &[]).is_empty());
    // A proper prefix sorts first; the unit does not take part in the order.
    let start = vec![key("ab", "x", "", ""), key("a", "y", "", "")];
    assert_eq!(align_metrics(&start, &start), vec![(1, 1), (0, 0)]);
}

#[test]
fn binned_histograms_count_pairs() {
    let (px, py, pxy) = binned_histograms(&[0, 255, 128], &[10, 20], 4);
    assert_eq!(px, vec![1, 0, 0, 1]);
    assert_eq!(py, vec![2, 0, 0, 0]);
    let mut want = vec![0usize; 16];
    want[0] = 1;
    want[3 * 4] = 1;
    assert_eq!(pxy, want);
    let (px, py, pxy) = binned_histograms(&[1, 2], &[3], 0);
    assert!(px.is_empty() && py.is_empty() && pxy.is_empty());
}

#[test]
fn null_shifts_spread_over_stream() {
    assert_eq!(null_shifts(100, 3), vec![25, 50, 75]);
    assert!(null_shifts(16, 3).is_empty());
    assert!(null_shifts(100, 0).is_empty());
    let s = null_shifts(20, 100);
    assert_eq!(s.len(), 64);
    assert_eq!(s[0], 1);
    assert_eq!(s[63], 19);
    assert!(s.iter().all(|&x| (1..20).contains(&x)));
}

#[test]
fn align_metrics_keeps_distinct_sources() {
    let start = vec![key("thermal", "sensor", "C", "a"), key("thermal", "sensor", "C", "b")];
    let end = start.clone();
    assert_eq!(align_metrics(&start, &end), vec![(0, 0), (1, 1)]);
    let one = vec![key("memory", "free_bytes", "bytes", "test")];
    assert_eq!(align_metrics(&one, &one), vec![(0, 0)]);
    assert_eq!(elapsed_ms(1000, 1500), 500);
}

#[test]
fn normalize_key_is_idempotent() {
    for raw in ["CPU Die Temp (C)", "__a--b__", "", "x1", "Ünïcode ÄÖ", "a__b", "_"] {
        let once = normalize_key(raw);
        assert_eq!(normalize_key(&once), once);
        assert!(!once.starts_with('_') && !once.ends_with('_') && !once.contains("__"));
        assert!(once.chars().all(|c| c.is_ascii_lowercase() || c.is_ascii_digit() || c == '_'));
    }
}

#[test]
fn category_parsing_trims_unicode_white_space() {
    assert_eq!(parse_source_category("\u{3000}GPU\u{a0}"), Some(SourceCategory::GPU));
    assert_eq!(parse_source_category("\u{85}io\u{2028}"), Some(SourceCategory::IO));
    assert_eq!(parse_source_category("\u{200b}io"), None);
}
