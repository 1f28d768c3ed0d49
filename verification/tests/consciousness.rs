use sha2::{Digest, Sha256};
use openentropy_core::consciousness::{
    group_sources_by_category,
    available_bits, count_ones, count_ones_n, generate_preregistration, simple_sha256_hex,
    timestamp_text, ExperimentConfig, ExperimentMode, IntentionDirection,
};
use openentropy_core::consciousness_anomaly;
use openentropy_core::consciousness_env::{current_wall_time, days_to_date, EventCategory};
use openentropy_core::consciousness_ml;
use openentropy_core::consciousness_retrocausal::assign_directions;
use openentropy_core::consciousness_prereg::{
    deep_analysis_summary, deep_parameter_hash, hash_pair_hex, hash_string, MachineFingerprint,
};
use openentropy_core::consciousness_topology::{component_merges, subsample};

#[test]
fn count_ones_empty() {
    assert_eq!(count_ones(&[]), 0);
}

#[test]
fn count_ones_all_ones() {
    assert_eq!(count_ones(&[0xFF, 0xFF]), 16);
}

#[test]
fn count_ones_all_zeros() {
    assert_eq!(count_ones(&[0x00, 0x00]), 0);
}

#[test]
fn count_ones_mixed() {
    assert_eq!(count_ones(&[0xAA]), 4);
    assert_eq!(count_ones(&[0x55]), 4);
    assert_eq!(count_ones(&[0x0F]), 4);
}

#[test]
fn count_ones_n_partial_byte() {
    assert_eq!(count_ones_n(&[0xFF], 3), 3);
    assert_eq!(count_ones_n(&[0xF0], 4), 4);
    assert_eq!(count_ones_n(&[0xFF, 0xF0], 12), 12);
}

#[test]
fn experiment_mode_from_str() {
    assert_eq!(ExperimentMode::from_str("standard"), ExperimentMode::Standard);
    assert_eq!(ExperimentMode::from_str("spectroscopy"), ExperimentMode::Spectroscopy);
    assert_eq!(ExperimentMode::from_str("structure"), ExperimentMode::Structure);
    assert_eq!(ExperimentMode::from_str("coherence"), ExperimentMode::Coherence);
    assert_eq!(ExperimentMode::from_str("temporal"), ExperimentMode::Temporal);
    assert_eq!(ExperimentMode::from_str("adversarial"), ExperimentMode::Adversarial);
    assert_eq!(ExperimentMode::from_str("feedback"), ExperimentMode::Feedback);
    assert_eq!(ExperimentMode::from_str("anomaly"), ExperimentMode::Anomaly);
    assert_eq!(ExperimentMode::from_str("retrocausal"), ExperimentMode::Retrocausal);
    assert_eq!(ExperimentMode::from_str("unknown"), ExperimentMode::Standard);
}

#[test]
fn experiment_mode_display() {
    assert_eq!(ExperimentMode::Standard.to_string(), "standard");
    assert_eq!(ExperimentMode::Spectroscopy.to_string(), "spectroscopy");
    assert_eq!(ExperimentMode::Structure.to_string(), "structure");
    assert_eq!(ExperimentMode::Coherence.to_string(), "coherence");
    assert_eq!(ExperimentMode::Temporal.to_string(), "temporal");
    assert_eq!(ExperimentMode::Adversarial.to_string(), "adversarial");
    assert_eq!(ExperimentMode::Feedback.to_string(), "feedback");
    assert_eq!(ExperimentMode::Anomaly.to_string(), "anomaly");
    assert_eq!(ExperimentMode::Retrocausal.to_string(), "retrocausal");
}

#[test]
fn preregistration_generates_hash() {
    let config = ExperimentConfig::default();
    let prereg = generate_preregistration(
        ExperimentMode::Standard,
        &config,
        false,
        Some("test_operator"),
        Some(1_771_030_200),
    );
    assert!(!prereg.hash.is_empty());
    assert_eq!(prereg.mode, ExperimentMode::Standard);
    assert_eq!(prereg.operator.as_deref(), Some("test_operator"));
}

#[test]
fn max_run_length_empty() {
    assert_eq!(consciousness_anomaly::max_run_length(&[]), 0);
}

#[test]
fn max_run_length_all_ones() {
    assert_eq!(consciousness_anomaly::max_run_length(&[0xFF, 0xFF]), 16);
}

#[test]
fn max_run_length_alternating() {
    assert_eq!(consciousness_anomaly::max_run_length(&[0xAA]), 1);
}

#[test]
fn test_event_category_display() {
    assert_eq!(EventCategory::WorldEvent.to_string(), "world");
    assert_eq!(EventCategory::OperatorState.to_string(), "operator");
}

#[test]
fn test_days_to_date() {
    let (y, m, d) = days_to_date(0);
    assert_eq!((y, m, d), (1970, 1, 1));
}

#[test]
fn test_current_wall_time_format() {
    let now = std::time::SystemTime::now()
        .duration_since(std::time::UNIX_EPOCH)
        .unwrap_or_default()
        .as_secs();
    let t = current_wall_time(now);
    assert!(t.contains("T"));
    assert!(t.ends_with("Z"));
}

#[test]
fn test_max_run_length() {
    assert_eq!(consciousness_ml::max_run_length(&[1, 1, 1, 2, 2]), 3);
    assert_eq!(consciousness_ml::max_run_length(&[1, 2, 3, 4, 5]), 1);
    assert_eq!(consciousness_ml::max_run_length(&[7, 7, 7, 7]), 4);
}

#[test]
fn test_hash_string_deterministic() {
    let h1 = hash_string("hello");
    let h2 = hash_string("hello");
    assert_eq!(h1, h2);
}

#[test]
fn test_hash_string_different() {
    let h1 = hash_string("hello");
    let h2 = hash_string("world");
    assert_ne!(h1, h2);
}

#[test]
fn subsample_short_data() {
    let data = vec![1u8, 2, 3];
    let sub = subsample(&data, 10);
    assert_eq!(sub, data);
}

#[test]
fn subsample_long_data() {
    let data: Vec<u8> = (0..1000).map(|i| (i % 256) as u8).collect();
    let sub = subsample(&data, 100);
    assert!(sub.len() <= 100);
}

// ---------------------------------------------------------------------------
// Further cases
// ---------------------------------------------------------------------------

#[test]
fn experiment_config_defaults() {
    let cfg = ExperimentConfig::default();
    assert_eq!(cfg.bits_per_trial, 200);
    assert_eq!(cfg.trials_per_phase, 50);
    assert_eq!(cfg.trial_interval_ms, 1000);
    assert_eq!(
        cfg.phases,
        vec![IntentionDirection::Baseline, IntentionDirection::High, IntentionDirection::Low]
    );
    assert_eq!(cfg.bytes_per_trial(), 25);
    assert_eq!(cfg.total_trials(), 150);
}

#[test]
fn intention_direction_names() {
    assert_eq!(IntentionDirection::High.to_string(), "HIGH");
    assert_eq!(IntentionDirection::Low.to_string(), "LOW");
    assert_eq!(IntentionDirection::Baseline.to_string(), "BASELINE");
}

#[test]
fn mode_name_roundtrip() {
    for mode in [
        ExperimentMode::Standard,
        ExperimentMode::Spectroscopy,
        ExperimentMode::Structure,
        ExperimentMode::Coherence,
        ExperimentMode::Temporal,
        ExperimentMode::Adversarial,
        ExperimentMode::Feedback,
        ExperimentMode::Anomaly,
        ExperimentMode::Retrocausal,
    ] {
        assert_eq!(ExperimentMode::from_str(&mode.to_string()), mode);
    }
}

#[test]
fn count_ones_n_reads_most_significant_bits_first() {
    assert_eq!(count_ones_n(&[0x0F], 4), 0);
    assert_eq!(count_ones_n(&[0x0F], 8), 4);
    // More bits asked than present: every available bit counts.
    assert_eq!(count_ones_n(&[0xFF], 20), 8);
    assert_eq!(available_bits(&[0, 0], 20), 16);
    assert_eq!(available_bits(&[0, 0], 5), 5);
}

#[test]
fn preregistration_records_config_and_time() {
    let config = ExperimentConfig::default();
    let p = generate_preregistration(ExperimentMode::Anomaly, &config, true, None, Some(42));
    assert_eq!(p.mode, ExperimentMode::Anomaly);
    assert_eq!(p.trials_per_phase, 50);
    assert_eq!(p.bits_per_trial, 200);
    assert!(p.double_blind);
    assert_eq!(p.operator, None);
    assert_eq!(p.timestamp, "1970-01-01T00:00:42Z");
    assert_eq!(p.hash.len(), 64);
    let expected: String = Sha256::digest(b"anomaly:50:200:true:anonymous:1970-01-01T00:00:42Z")
        .iter()
        .map(|b| format!("{b:02x}"))
        .collect();
    assert_eq!(p.hash, expected);
    let q = generate_preregistration(ExperimentMode::Anomaly, &config, true, None, Some(42));
    assert_eq!(p.hash, q.hash);
    let r = generate_preregistration(ExperimentMode::Anomaly, &config, false, None, Some(42));
    assert_ne!(p.hash, r.hash);
}

#[test]
fn timestamp_text_renders_iso8601() {
    assert_eq!(timestamp_text(Some(0)), "1970-01-01T00:00:00Z");
    assert_eq!(timestamp_text(Some(1_700_000_000)), "2023-11-14T22:13:20Z");
    assert_eq!(timestamp_text(None), "");
}

#[test]
fn hash_string_is_two_hex_words() {
    let h = hash_string("hello");
    assert_eq!(h.len(), 32);
    assert!(h.chars().all(|c| c.is_ascii_hexdigit() && !c.is_ascii_uppercase()));
    assert_eq!(hash_pair_hex(0xab, 1), "00000000000000ab0000000000000001");
}

#[test]
fn max_run_length_counts_across_bytes() {
    // 0x0F 0xF0: 0000 1111 1111 0000 -> longest run 8.
    assert_eq!(consciousness_anomaly::max_run_length(&[0x0F, 0xF0]), 8);
    assert_eq!(consciousness_anomaly::max_run_length(&[0x00]), 8);
    assert_eq!(consciousness_ml::max_run_length(&[]), 1);
}

#[test]
fn wall_time_is_iso8601() {
    assert_eq!(current_wall_time(0), "1970-01-01T00:00:00Z");
    assert_eq!(current_wall_time(951_782_400), "2000-02-29T00:00:00Z");
    assert_eq!(days_to_date(11016), (2000, 2, 29));
}

#[test]
fn event_category_names() {
    assert_eq!(EventCategory::LocalEnvironment.to_string(), "local");
    assert_eq!(EventCategory::Custom.to_string(), "custom");
}

#[test]
fn subsample_uniform_step() {
    let data: Vec<u8> = (0..10).collect();
    assert_eq!(subsample(&data, 5), vec![0, 2, 4, 6, 8]);
    assert_eq!(subsample(&data, 3), vec![0, 3, 6]);
}

#[test]
fn machine_fingerprint_counts_sources() {
    let fp = MachineFingerprint::new(
        "linux".to_string(),
        "x86_64".to_string(),
        "host".to_string(),
        vec!["a".to_string(), "b".to_string()],
        "1.0".to_string(),
    );
    assert_eq!(fp.n_sources, 2);
    assert_eq!(fp.hostname, "host");
}

#[test]
fn retrocausal_directions_follow_generator_parity() {
    let dirs = assign_directions(12345, 6);
    assert_eq!(dirs.len(), 6);
    let mut x: u64 = 12345;
    for d in &dirs {
        x ^= x << 13;
        x ^= x >> 7;
        x ^= x << 17;
        let want = if x % 2 == 0 { IntentionDirection::High } else { IntentionDirection::Low };
        assert_eq!(*d, want);
    }
    // A zero seed never leaves zero: every trial is assigned High.
    assert_eq!(assign_directions(0, 3), vec![IntentionDirection::High; 3]);
    assert!(assign_directions(7, 0).is_empty());
}

#[test]
fn component_merges_follow_kruskal() {
    // Triangle 0-1-2 plus an isolated pair 3-4.
    let edges = vec![(0, 1), (1, 2), (0, 2), (3, 4), (2, 3), (4, 0)];
    assert_eq!(component_merges(5, &edges), vec![0, 1, 3, 4]);
    // Self loops and repeated edges never merge.
    assert_eq!(component_merges(3, &[(1, 1), (0, 2), (2, 0), (0, 1)]), vec![1, 3]);
    assert!(component_merges(0, &[]).is_empty());
    // A chain merges on every edge: n - 1 merges.
    let chain: Vec<(usize, usize)> = (0..9).map(|i| (i, i + 1)).collect();
    assert_eq!(component_merges(10, &chain), (0..9).collect::<Vec<usize>>());
}

#[test]
fn wall_time_matches_session_format() {
    for secs in [0u64, 86_399, 951_782_400, 1_771_030_200] {
        assert_eq!(current_wall_time(secs), openentropy_core::session::format_iso8601(secs));
    }
}

#[test]
fn component_merges_at_most_n_minus_one() {
    let mut edges = Vec::new();
    for i in 0..6usize {
        for j in 0..6usize {
            edges.push((i, j));
        }
    }
    assert_eq!(component_merges(6, &edges).len(), 5);
}

#[test]
fn deep_analysis_extends_hash_and_summary() {
    assert_eq!(deep_parameter_hash("abc", "def"), hash_string("abc:deep:def"));
    assert_ne!(deep_parameter_hash("abc", "def"), deep_parameter_hash("abc", "deg"));
    assert_eq!(
        deep_analysis_summary("Pre-registered standard experiment", 3, 3, 3, 8, 0),
        "Pre-registered standard experiment | Deep analysis: ord=3 rqa_dim=3 topo_dim=3 te_bins=8 surr=0"
    );
    assert_eq!(deep_analysis_summary("", 4, 10, 2, 16, 1000), " | Deep analysis: ord=4 rqa_dim=10 topo_dim=2 te_bins=16 surr=1000");
}

#[test]
fn simple_sha256_hex_is_the_sha256_digest() {
    assert_eq!(
        simple_sha256_hex("hello"),
        "2cf24dba5fb0a30e26e83b2ac5b9e29e1b161e5c1fa7425e73043362938b9824"
    );
    assert_eq!(
        simple_sha256_hex(""),
        "e3b0c44298fc1c149afbf4c8996fb92427ae41e4649b934ca495991b7852b855"
    );
}

#[test]
fn bit_counts_add_over_concatenation() {
    let a = [0xF0u8, 0x01, 0xAA];
    let b = [0xFFu8, 0x00, 0x13];
    let ab: Vec<u8> = [&a[..], &b[..]].concat();
    assert_eq!(count_ones(&ab), count_ones(&a) + count_ones(&b));
    assert_eq!(count_ones(&ab), 4 + 1 + 4 + 8 + 0 + 3);
    for x in 0..=255u8 {
        assert_eq!(count_ones(&[x]), x.count_ones());
    }
}

#[test]
fn sources_group_by_category_in_first_appearance_order() {
    let cats: Vec<String> = ["thermal", "timing", "thermal", "io", "timing"]
        .iter()
        .map(|s| s.to_string())
        .collect();
    let groups = group_sources_by_category(&cats);
    assert_eq!(
        groups,
        vec![
            ("thermal".to_string(), vec![0, 2]),
            ("timing".to_string(), vec![1, 4]),
            ("io".to_string(), vec![3]),
        ]
    );
    assert!(group_sources_by_category(&[]).is_empty());
}
