use openentropy_core::conditioning::ConditioningMode;
use openentropy_core::session::{
    cpuinfo_model_name, format_iso8601, format_iso8601_compact, hex_encode, index_row, is_leap,
    os_release_pretty_name, secs_to_utc, session_dir_name, sw_vers_version, sysctl_brand_string,
    MachineInfo, SessionConfig, SessionLog,
};
use std::time::Duration;

#[test]
fn test_format_iso8601_epoch() {
    let s = format_iso8601(Duration::from_secs(0).as_secs());
    assert_eq!(s, "1970-01-01T00:00:00Z");
}

#[test]
fn test_format_iso8601_compact_epoch() {
    let s = format_iso8601_compact(Duration::from_secs(0).as_secs());
    assert_eq!(s, "1970-01-01T000000Z");
}

#[test]
fn test_format_iso8601_known_date() {
    let s = format_iso8601(Duration::from_secs(1771030200).as_secs());
    assert!(s.starts_with("2026-"));
}

#[test]
fn test_hex_encode_empty() {
    assert_eq!(hex_encode(&[]), "");
}

#[test]
fn test_hex_encode_basic() {
    assert_eq!(hex_encode(&[0xab, 0xcd, 0x01]), "abcd01");
}

#[test]
fn test_secs_to_utc_epoch() {
    let (y, m, d, h, mi, s) = secs_to_utc(0);
    assert_eq!((y, m, d, h, mi, s), (1970, 1, 1, 0, 0, 0));
}

#[test]
fn test_secs_to_utc_known_date() {
    let (y, m, d, h, mi, s) = secs_to_utc(946684800);
    assert_eq!((y, m, d, h, mi, s), (2000, 1, 1, 0, 0, 0));
}

#[test]
fn test_is_leap() {
    assert!(is_leap(2000));
    assert!(is_leap(2024));
    assert!(!is_leap(1900));
    assert!(!is_leap(2023));
}

// ---------------------------------------------------------------------------
// Further cases
// ---------------------------------------------------------------------------

#[test]
fn iso8601_full_fields() {
    // 20498 days and 3000 seconds after the epoch: 2026-02-14 00:50:00 UTC.
    assert_eq!(format_iso8601(1771030200), "2026-02-14T00:50:00Z");
    assert_eq!(format_iso8601_compact(1771030200), "2026-02-14T005000Z");
    assert_eq!(secs_to_utc(1771030200), (2026, 2, 14, 0, 50, 0));
    // Leap day and the last second of a year.
    assert_eq!(format_iso8601(951_782_400), "2000-02-29T00:00:00Z");
    assert_eq!(format_iso8601(1_704_067_199), "2023-12-31T23:59:59Z");
}

#[test]
fn hex_encode_pads_small_bytes() {
    assert_eq!(hex_encode(&[0x00, 0x0f, 0xff]), "000fff");
}

#[test]
fn session_config_defaults() {
    let c = SessionConfig::default();
    assert!(c.sources.is_empty());
    assert_eq!(c.conditioning, ConditioningMode::Raw);
    assert_eq!(c.interval_ms, None);
    assert_eq!(c.output_dir, "sessions");
    assert!(c.tags.is_empty());
    assert_eq!(c.note, None);
    assert_eq!(c.duration_ms, None);
    assert_eq!(c.sample_size, 1000);
}

#[test]
fn session_log_counts_samples() {
    let sources = vec!["clock_jitter".to_string(), "dram".to_string()];
    let mut log = SessionLog::new(&sources);
    assert_eq!(log.total_samples(), 0);
    assert_eq!(log.raw_offset(), 0);
    assert_eq!(
        log.samples_per_source(),
        vec![("clock_jitter".to_string(), 0), ("dram".to_string(), 0)]
    );
    assert_eq!(log.record_sample("clock_jitter", 100), 0);
    assert_eq!(log.record_sample("dram", 50), 100);
    assert_eq!(log.record_sample("clock_jitter", 100), 150);
    assert_eq!(log.record_sample("extra", 10), 250);
    assert_eq!(log.raw_offset(), 260);
    assert_eq!(log.total_samples(), 4);
    assert_eq!(log.samples_of("clock_jitter"), 2);
    assert_eq!(log.samples_of("dram"), 1);
    assert_eq!(log.samples_of("extra"), 1);
    assert_eq!(log.samples_of("missing"), 0);
    let per: u64 = log.samples_per_source().iter().map(|(_, c)| *c).sum();
    assert_eq!(per, log.total_samples());
}

#[test]
fn session_log_counts_repeated_source_once() {
    let sources = vec!["a".to_string(), "a".to_string()];
    let log = SessionLog::new(&sources);
    assert_eq!(log.samples_per_source(), vec![("a".to_string(), 0)]);
}

#[test]
fn index_row_format() {
    assert_eq!(index_row(0, 100, 1234567890, "clock_jitter"), "0,100,1234567890,clock_jitter");
}

#[test]
fn session_dir_name_format() {
    let sources = vec!["clock_jitter".to_string(), "dram".to_string()];
    assert_eq!(session_dir_name(0, &sources), "1970-01-01T000000Z-clock_jitter-dram");
    assert_eq!(session_dir_name(0, &[]), "1970-01-01T000000Z-");
}

#[test]
fn session_meta_collects_the_record() {
    let config = SessionConfig {
        sources: vec!["mock_source".to_string()],
        interval_ms: Some(100),
        tags: vec![("crystal".to_string(), "quartz".to_string())],
        note: Some("Testing quartz crystal".to_string()),
        ..Default::default()
    };
    let mut log = SessionLog::new(&config.sources);
    log.record_sample("mock_source", 100);
    log.record_sample("mock_source", 100);
    let machine = MachineInfo {
        os: "linux".to_string(),
        arch: "x86_64".to_string(),
        chip: "cpu".to_string(),
        cores: 4,
    };
    let meta = log.session_meta(config, "id-1".to_string(), 0, 300, 300_000, machine, "0.4.1".to_string());
    assert_eq!(meta.version, 1);
    assert_eq!(meta.id, "id-1");
    assert_eq!(meta.started_at, "1970-01-01T00:00:00Z");
    assert_eq!(meta.ended_at, "1970-01-01T00:05:00Z");
    assert_eq!(meta.duration_ms, 300_000);
    assert_eq!(meta.sources, vec!["mock_source".to_string()]);
    assert_eq!(meta.conditioning, "raw");
    assert_eq!(meta.interval_ms, Some(100));
    assert_eq!(meta.total_samples, 2);
    assert_eq!(meta.samples_per_source, vec![("mock_source".to_string(), 2)]);
    assert_eq!(meta.machine.cores, 4);
    assert_eq!(meta.tags, vec![("crystal".to_string(), "quartz".to_string())]);
    assert_eq!(meta.note.as_deref(), Some("Testing quartz crystal"));
    assert_eq!(meta.openentropy_version, "0.4.1");
}

#[test]
fn os_release_pretty_name_cases() {
    let text = "NAME=\"Ubuntu\"\nPRETTY_NAME=\"Ubuntu 24.04 LTS\"\r\nID=ubuntu\n";
    assert_eq!(os_release_pretty_name(text).as_deref(), Some("Ubuntu 24.04 LTS"));
    assert_eq!(os_release_pretty_name("ID=x\n"), None);
    assert_eq!(os_release_pretty_name("PRETTY_NAME=PRETTY_NAME=\"\"x\"\"").as_deref(), Some("x"));
    assert_eq!(os_release_pretty_name("PRETTY_NAME=plain").as_deref(), Some("plain"));
    // Only lines that start with the key count.
    assert_eq!(os_release_pretty_name(" PRETTY_NAME=x\nPRETTY_NAME=y").as_deref(), Some("y"));
}

#[test]
fn cpuinfo_model_name_cases() {
    let text = "processor\t: 0\nvendor_id\t: GenuineIntel\nmodel name\t: Intel(R) Xeon(R) CPU @ 2.20GHz\nmodel name\t: second\n";
    assert_eq!(cpuinfo_model_name(text).as_deref(), Some("Intel(R) Xeon(R) CPU @ 2.20GHz"));
    assert_eq!(cpuinfo_model_name("model name\t: a:b\n").as_deref(), Some("a"));
    assert_eq!(cpuinfo_model_name("model name without colon").as_deref(), Some(""));
    assert_eq!(cpuinfo_model_name("processor: 0"), None);
}

#[test]
fn command_output_trimming() {
    assert_eq!(sw_vers_version("15.4\n"), "15.4");
    assert_eq!(sysctl_brand_string("  Apple M4\n").as_deref(), Some("Apple M4"));
    assert_eq!(sysctl_brand_string(" \n"), None);
}

#[test]
fn day_counts_and_dates_correspond_one_to_one() {
    let mut prev = (1969u64, 12u64, 31u64);
    for secs in (0..2000u64).map(|d| d * 86_400 + 43_200) {
        let (y, m, d, h, mi, s) = secs_to_utc(secs);
        assert_eq!((h, mi, s), (12, 0, 0));
        assert!(((y, m, d)) > prev, "dates must increase with the day count");
        assert!((1..=12).contains(&m) && d >= 1 && d <= 31);
        prev = (y, m, d);
    }
    assert_eq!(prev, (1975, 6, 23));
}
