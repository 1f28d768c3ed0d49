//! Consciousness-RNG experiment protocol (PEAR Lab tripolar protocol): the
//! experiment configuration, bit counting on trial data, experiment modes,
//! and pre-registration records.

use vstd::prelude::*;

use crate::counting::{count_below, lemma_count_ext, lemma_count_le};
use crate::conditioning::{sha256_digest, spec_sha256};
use crate::session::{format_iso8601, hex_encode, spec_hex, spec_iso8601};
use crate::text::{dec_digits, push_dec, push_str_chars, str_eq, string_from_chars};

verus! {

// ---------------------------------------------------------------------------
// Types
// ---------------------------------------------------------------------------

/// Direction of intention in a consciousness-RNG trial.
#[derive(Debug, Clone, Copy, PartialEq, Eq, Structural)]
pub enum IntentionDirection {
    /// Intend to increase 1-bits (shift mean upward).
    High,
    /// Intend to decrease 1-bits (shift mean downward).
    Low,
    /// No intention — relax, control condition.
    Baseline,
}

/// The display label of an intention direction.
pub open spec fn spec_direction_name(d: IntentionDirection) -> Seq<char> {
    match d {
        IntentionDirection::High => "HIGH"@,
        IntentionDirection::Low => "LOW"@,
        IntentionDirection::Baseline => "BASELINE"@,
    }
}

impl IntentionDirection {
    /// The display label of this direction.
    pub fn to_string(&self) -> (s: String)
        ensures
            s@ == spec_direction_name(*self),
    {
        match self {
            IntentionDirection::High => String::from_str("HIGH"),
            IntentionDirection::Low => String::from_str("LOW"),
            IntentionDirection::Baseline => String::from_str("BASELINE"),
        }
    }
}

/// Configuration for a consciousness-RNG experiment.
#[derive(Debug, Clone)]
pub struct ExperimentConfig {
    /// Bits per trial (default: 200, PEAR Lab standard).
    pub bits_per_trial: usize,
    /// Number of trials per phase (default: 50).
    pub trials_per_phase: usize,
    /// Milliseconds between trials (default: 1000 = 1 Hz).
    pub trial_interval_ms: u64,
    /// Phase order.
    pub phases: Vec<IntentionDirection>,
}

impl Default for ExperimentConfig {
    fn default() -> (c: Self)
        ensures
            c.bits_per_trial == 200,
            c.trials_per_phase == 50,
            c.trial_interval_ms == 1000,
            c.phases@ == seq![
                IntentionDirection::Baseline,
                IntentionDirection::High,
                IntentionDirection::Low,
            ],
    {
        let mut phases: Vec<IntentionDirection> = Vec::new();
        phases.push(IntentionDirection::Baseline);
        phases.push(IntentionDirection::High);
        phases.push(IntentionDirection::Low);
        ExperimentConfig { bits_per_trial: 200, trials_per_phase: 50, trial_interval_ms: 1000, phases }
    }
}

impl ExperimentConfig {
    /// Bytes needed per trial to get `bits_per_trial` bits.
    pub fn bytes_per_trial(&self) -> (n: usize)
        requires
            self.bits_per_trial + 7 <= usize::MAX,
        ensures
            n == (self.bits_per_trial + 7) / 8,
            8 * n >= self.bits_per_trial,
            8 * n < self.bits_per_trial + 8,
    {
        (self.bits_per_trial + 7) / 8
    }

    /// Total number of trials over all phases.
    pub fn total_trials(&self) -> (n: usize)
        requires
            self.trials_per_phase * self.phases@.len() <= usize::MAX,
        ensures
            n == self.trials_per_phase * self.phases@.len(),
    {
        self.trials_per_phase * self.phases.len()
    }
}

// ---------------------------------------------------------------------------
// Bit counting
// ---------------------------------------------------------------------------

/// Bit `j` of the bit stream of `data`, bytes in order, each byte most
/// significant bit first.
pub open spec fn stream_bit(data: Seq<u8>, j: int) -> u8 {
    (data[j / 8] >> ((7 - j % 8) as u8)) & 1
}

/// The predicate "stream bit `j` is set".
pub open spec fn one_pred(data: Seq<u8>) -> spec_fn(int) -> bool {
    |j: int| stream_bit(data, j) == 1
}

/// The number of 1-bits among the first `m` stream bits.
pub open spec fn ones_in_first(data: Seq<u8>, m: nat) -> nat {
    count_below(m, one_pred(data))
}

/// The number of stream bits available for a request: the request, capped
/// at the data's length in bits.
pub open spec fn spec_available_bits(len: nat, requested: nat) -> nat {
    if requested < 8 * len {
        requested
    } else {
        8 * len
    }
}

/// Count 1-bits in the first `m` stream bits.
fn count_stream_bits(data: &[u8], m: usize) -> (count: u32)
    requires
        m <= 8 * data@.len(),
        8 * data@.len() <= usize::MAX,
        ones_in_first(data@, m as nat) <= u32::MAX,
    ensures
        count == ones_in_first(data@, m as nat),
{
    let mut count: u32 = 0;
    let mut j: usize = 0;
    while j < m
        invariant
            m <= 8 * data@.len(),
            8 * data@.len() <= usize::MAX,
            j <= m,
            ones_in_first(data@, m as nat) <= u32::MAX,
            count == ones_in_first(data@, j as nat),
        decreases m - j,
    {
        proof {
            crate::counting::lemma_count_mono_range((j + 1) as nat, m as nat, one_pred(data@));
        }
        let byte = data[j / 8];
        let bit = (byte >> ((7 - j % 8) as u8)) & 1;
        assert(bit == stream_bit(data@, j as int));
        if bit == 1 {
            count = count + 1;
        }
        j = j + 1;
    }
    count
}

/// Count the number of 1-bits in a byte slice.
pub fn count_ones(data: &[u8]) -> (count: u32)
    requires
        8 * data@.len() <= usize::MAX,
        ones_in_first(data@, 8 * data@.len()) <= u32::MAX,
    ensures
        count == ones_in_first(data@, 8 * data@.len()),
        count == popcount_sum(data@),
{
    proof {
        lemma_ones_is_popcount_sum(data@);
    }
    count_stream_bits(data, data.len() * 8)
}

/// Count 1-bits in the first `n_bits` bits of data; if data has fewer bits
/// than requested, counts all available bits.
pub fn count_ones_n(data: &[u8], n_bits: usize) -> (count: u32)
    requires
        8 * data@.len() <= usize::MAX,
        ones_in_first(data@, spec_available_bits(data@.len(), n_bits as nat)) <= u32::MAX,
    ensures
        count == ones_in_first(data@, spec_available_bits(data@.len(), n_bits as nat)),
{
    let bits = available_bits(data, n_bits);
    count_stream_bits(data, bits)
}

/// How many bits are actually available from this data.
pub fn available_bits(data: &[u8], requested_bits: usize) -> (n: usize)
    requires
        8 * data@.len() <= usize::MAX,
    ensures
        n == spec_available_bits(data@.len(), requested_bits as nat),
{
    let available = data.len() * 8;
    if requested_bits < available {
        requested_bits
    } else {
        available
    }
}

/// Counting ones never gives more than the bits counted.
pub proof fn lemma_ones_le_bits(data: Seq<u8>, m: nat)
    ensures
        ones_in_first(data, m) <= m,
{
    lemma_count_le(m, one_pred(data));
}

/// Bit `k` (counted from the least significant) of a byte, as 0 or 1.
pub open spec fn byte_bit(x: u8, k: u8) -> nat {
    ((x >> k) & 1) as nat
}

/// The number of set bits of a byte (what `u8::count_ones` returns): the
/// sum of its eight bits.
pub open spec fn byte_popcount(x: u8) -> nat {
    byte_bit(x, 0) + byte_bit(x, 1) + byte_bit(x, 2) + byte_bit(x, 3) + byte_bit(x, 4) + byte_bit(x, 5)
        + byte_bit(x, 6) + byte_bit(x, 7)
}

/// Counting the bits of one byte gives the sum of its eight bits.
pub proof fn lemma_ones_of_byte(x: u8)
    ensures
        ones_in_first(seq![x], 8) == byte_popcount(x),
{
    let d = seq![x];
    let p = one_pred(d);
    assert forall|j: int| 0 <= j < 8 implies (#[trigger] p(j)) == (((x >> ((7 - j) as u8)) & 1) == 1) by {
        assert(j / 8 == 0 && j % 8 == j);
    }
    assert forall|k: u8| k < 8 implies #[trigger] ((x >> k) & 1) <= 1 by {
        assert(((x >> k) & 1) <= 1) by (bit_vector);
    }
    reveal_with_fuel(count_below, 9);
    assert(p(0) == (((x >> 7u8) & 1) == 1));
    assert(p(1) == (((x >> 6u8) & 1) == 1));
    assert(p(2) == (((x >> 5u8) & 1) == 1));
    assert(p(3) == (((x >> 4u8) & 1) == 1));
    assert(p(4) == (((x >> 3u8) & 1) == 1));
    assert(p(5) == (((x >> 2u8) & 1) == 1));
    assert(p(6) == (((x >> 1u8) & 1) == 1));
    assert(p(7) == (((x >> 0u8) & 1) == 1));
}

proof fn lemma_ones_concat_upto(a: Seq<u8>, b: Seq<u8>, m: nat)
    requires
        m <= 8 * b.len(),
    ensures
        count_below(8 * a.len() + m, one_pred(a + b)) == count_below(8 * a.len(), one_pred(a))
            + count_below(m, one_pred(b)),
    decreases m,
{
    let ab = a + b;
    let la = a.len();
    if m == 0 {
        assert forall|j: int| 0 <= j < 8 * la implies (#[trigger] one_pred(ab)(j) <==> #[trigger] one_pred(a)(j)) by {
            assert(0 <= j / 8 < la);
            assert(ab[j / 8] == a[j / 8]);
        }
        lemma_count_ext(8 * la, one_pred(ab), one_pred(a));
    } else {
        let k = (m - 1) as nat;
        lemma_ones_concat_upto(a, b, k);
        let j: int = (8 * la + k) as int;
        let ki: int = k as int;
        assert(j / 8 == la + ki / 8 && j % 8 == ki % 8);
        assert(0 <= ki / 8 < b.len());
        assert(ab[j / 8] == b[ki / 8]);
        assert(one_pred(ab)(j) == one_pred(b)(ki));
    }
}

/// Bit counts add over concatenation: the 1-bits of `a` followed by `b`
/// are those of `a` plus those of `b`.
pub proof fn lemma_ones_concat(a: Seq<u8>, b: Seq<u8>)
    ensures
        ones_in_first(a + b, 8 * (a.len() + b.len())) == ones_in_first(a, 8 * a.len()) + ones_in_first(
            b,
            8 * b.len(),
        ),
{
    lemma_ones_concat_upto(a, b, 8 * b.len());
    assert((a + b).len() == a.len() + b.len());
    assert(8 * (a.len() + b.len()) == 8 * a.len() + 8 * b.len());
}

/// The sum of the set-bit counts of the bytes of `data`.
pub open spec fn popcount_sum(data: Seq<u8>) -> nat
    decreases data.len(),
{
    if data.len() == 0 {
        0
    } else {
        popcount_sum(data.drop_last()) + byte_popcount(data.last())
    }
}

/// The 1-bits of a buffer are the sum, over its bytes, of each byte's
/// `count_ones`.
pub proof fn lemma_ones_is_popcount_sum(data: Seq<u8>)
    ensures
        ones_in_first(data, 8 * data.len()) == popcount_sum(data),
    decreases data.len(),
{
    if data.len() == 0 {
        assert(count_below(0, one_pred(data)) == 0);
    } else {
        let init = data.drop_last();
        let last = seq![data.last()];
        lemma_ones_is_popcount_sum(init);
        lemma_ones_of_byte(data.last());
        lemma_ones_concat(init, last);
        assert(init + last =~= data);
    }
}

// ---------------------------------------------------------------------------
// Experiment modes
// ---------------------------------------------------------------------------

/// Experiment mode for consciousness-RNG experiments.
#[derive(Debug, Clone, Copy, PartialEq, Eq, Structural)]
pub enum ExperimentMode {
    /// Standard PEAR Lab tripolar protocol.
    Standard,
    /// Cross-mechanism consciousness spectroscopy by source domain.
    Spectroscopy,
    /// Information-theoretic structure detection (ApEn, SampEn, LZ76, flatness).
    Structure,
    /// Cross-source coherence analysis (pairwise correlation shifts).
    Coherence,
    /// Temporal analysis: onset, decay, peak-effect windows.
    Temporal,
    /// Two-operator adversarial protocol.
    Adversarial,
    /// Real-time feedback-guided intention training.
    Feedback,
    /// ML-lite multivariate anomaly detection.
    Anomaly,
    /// Retrocausal protocol: data collected before intention assignment.
    Retrocausal,
}

/// The display name of an experiment mode.
pub open spec fn spec_mode_label(m: ExperimentMode) -> Seq<char> {
    match m {
        ExperimentMode::Standard => "standard"@,
        ExperimentMode::Spectroscopy => "spectroscopy"@,
        ExperimentMode::Structure => "structure"@,
        ExperimentMode::Coherence => "coherence"@,
        ExperimentMode::Temporal => "temporal"@,
        ExperimentMode::Adversarial => "adversarial"@,
        ExperimentMode::Feedback => "feedback"@,
        ExperimentMode::Anomaly => "anomaly"@,
        ExperimentMode::Retrocausal => "retrocausal"@,
    }
}

/// The mode a name selects: the mode displayed by that name, and
/// `Standard` for any other text.
pub open spec fn spec_mode_from_str(s: Seq<char>) -> ExperimentMode {
    if s == "spectroscopy"@ {
        ExperimentMode::Spectroscopy
    } else if s == "structure"@ {
        ExperimentMode::Structure
    } else if s == "coherence"@ {
        ExperimentMode::Coherence
    } else if s == "temporal"@ {
        ExperimentMode::Temporal
    } else if s == "adversarial"@ {
        ExperimentMode::Adversarial
    } else if s == "feedback"@ {
        ExperimentMode::Feedback
    } else if s == "anomaly"@ {
        ExperimentMode::Anomaly
    } else if s == "retrocausal"@ {
        ExperimentMode::Retrocausal
    } else {
        ExperimentMode::Standard
    }
}

impl ExperimentMode {
    /// The display name of this mode.
    pub fn to_string(&self) -> (s: String)
        ensures
            s@ == spec_mode_label(*self),
    {
        match self {
            ExperimentMode::Standard => String::from_str("standard"),
            ExperimentMode::Spectroscopy => String::from_str("spectroscopy"),
            ExperimentMode::Structure => String::from_str("structure"),
            ExperimentMode::Coherence => String::from_str("coherence"),
            ExperimentMode::Temporal => String::from_str("temporal"),
            ExperimentMode::Adversarial => String::from_str("adversarial"),
            ExperimentMode::Feedback => String::from_str("feedback"),
            ExperimentMode::Anomaly => String::from_str("anomaly"),
            ExperimentMode::Retrocausal => String::from_str("retrocausal"),
        }
    }

    /// Parse a mode name; unknown names select `Standard`.
    pub fn from_str(s: &str) -> (m: Self)
        ensures
            m == spec_mode_from_str(s@),
    {
        if str_eq(s, "spectroscopy") {
            ExperimentMode::Spectroscopy
        } else if str_eq(s, "structure") {
            ExperimentMode::Structure
        } else if str_eq(s, "coherence") {
            ExperimentMode::Coherence
        } else if str_eq(s, "temporal") {
            ExperimentMode::Temporal
        } else if str_eq(s, "adversarial") {
            ExperimentMode::Adversarial
        } else if str_eq(s, "feedback") {
            ExperimentMode::Feedback
        } else if str_eq(s, "anomaly") {
            ExperimentMode::Anomaly
        } else if str_eq(s, "retrocausal") {
            ExperimentMode::Retrocausal
        } else {
            ExperimentMode::Standard
        }
    }
}

/// Parsing the display name of a mode gives the mode back.
pub proof fn lemma_mode_name_roundtrip(m: ExperimentMode)
    ensures
        spec_mode_from_str(spec_mode_label(m)) == m,
{
    reveal_strlit("standard");
    reveal_strlit("spectroscopy");
    reveal_strlit("structure");
    reveal_strlit("coherence");
    reveal_strlit("temporal");
    reveal_strlit("adversarial");
    reveal_strlit("feedback");
    reveal_strlit("anomaly");
    reveal_strlit("retrocausal");
    assert("standard"@[1] != "spectroscopy"@[1]);
    assert("standard"@[2] != "structure"@[2]);
    assert("standard"@[0] != "coherence"@[0]);
    assert("standard"@[0] != "temporal"@[0]);
    assert("standard"@[0] != "adversarial"@[0]);
    assert("standard"@[0] != "feedback"@[0]);
    assert("standard"@[0] != "anomaly"@[0]);
    assert("standard"@[0] != "retrocausal"@[0]);
    assert("spectroscopy"@[1] != "structure"@[1]);
    assert("spectroscopy"@[0] != "coherence"@[0]);
    assert("spectroscopy"@[0] != "temporal"@[0]);
    assert("spectroscopy"@[0] != "adversarial"@[0]);
    assert("spectroscopy"@[0] != "feedback"@[0]);
    assert("spectroscopy"@[0] != "anomaly"@[0]);
    assert("spectroscopy"@[0] != "retrocausal"@[0]);
    assert("structure"@[0] != "coherence"@[0]);
    assert("structure"@[0] != "temporal"@[0]);
    assert("structure"@[0] != "adversarial"@[0]);
    assert("structure"@[0] != "feedback"@[0]);
    assert("structure"@[0] != "anomaly"@[0]);
    assert("structure"@[0] != "retrocausal"@[0]);
    assert("coherence"@[0] != "temporal"@[0]);
    assert("coherence"@[0] != "adversarial"@[0]);
    assert("coherence"@[0] != "feedback"@[0]);
    assert("coherence"@[0] != "anomaly"@[0]);
    assert("coherence"@[0] != "retrocausal"@[0]);
    assert("temporal"@[0] != "adversarial"@[0]);
    assert("temporal"@[0] != "feedback"@[0]);
    assert("temporal"@[0] != "anomaly"@[0]);
    assert("temporal"@[0] != "retrocausal"@[0]);
    assert("adversarial"@[0] != "feedback"@[0]);
    assert("adversarial"@[1] != "anomaly"@[1]);
    assert("adversarial"@[0] != "retrocausal"@[0]);
    assert("feedback"@[0] != "anomaly"@[0]);
    assert("feedback"@[0] != "retrocausal"@[0]);
    assert("anomaly"@[0] != "retrocausal"@[0]);
}

// ---------------------------------------------------------------------------
// Pre-registration
// ---------------------------------------------------------------------------

/// Pre-registration record — generated before the experiment, embedded in
/// output.
#[derive(Debug, Clone)]
pub struct PreRegistration {
    /// SHA-256 hash of the experiment parameters (64 lowercase hex digits).
    pub hash: String,
    /// Mode registered.
    pub mode: ExperimentMode,
    /// Trial count registered.
    pub trials_per_phase: usize,
    /// Bits per trial registered.
    pub bits_per_trial: usize,
    /// Timestamp when registered (ISO 8601).
    pub timestamp: String,
    /// Whether this is a double-blind experiment.
    pub double_blind: bool,
    /// Operator name (if provided).
    pub operator: Option<String>,
}

/// `true` or `false`.
pub open spec fn spec_bool_text(b: bool) -> Seq<char> {
    if b {
        "true"@
    } else {
        "false"@
    }
}

/// The registration timestamp text: the ISO-8601 UTC time
/// (`YYYY-MM-DDTHH:MM:SSZ`) of the clock reading, empty when the clock reads
/// before the epoch.
pub open spec fn spec_timestamp_text(secs: Option<u64>) -> Seq<char> {
    match secs {
        Some(s) => spec_iso8601(s as nat, false),
        None => Seq::empty(),
    }
}

/// The lowercase hex SHA-256 digest of the UTF-8 bytes of a text.
pub open spec fn spec_sha256_hex(text: Seq<char>) -> Seq<char> {
    spec_hex(spec_sha256(vstd::utf8::encode_utf8(text)))
}

/// The text whose hash registers an experiment:
/// `mode:trials:bits:double_blind:operator:timestamp`, the operator
/// `anonymous` when none is given.
pub open spec fn spec_prereg_hash_input(
    mode: ExperimentMode,
    trials_per_phase: usize,
    bits_per_trial: usize,
    double_blind: bool,
    operator: Option<Seq<char>>,
    timestamp: Seq<char>,
) -> Seq<char> {
    let op = match operator {
        Some(o) => o,
        None => "anonymous"@,
    };
    spec_mode_label(mode) + seq![':'] + dec_digits(trials_per_phase as nat) + seq![':']
        + dec_digits(bits_per_trial as nat) + seq![':'] + spec_bool_text(double_blind) + seq![':']
        + op + seq![':'] + timestamp
}

/// Append `true` or `false`.
fn push_bool_text(out: &mut Vec<char>, b: bool)
    ensures
        final(out)@ == old(out)@ + spec_bool_text(b),
{
    if b {
        push_str_chars(out, "true");
    } else {
        push_str_chars(out, "false");
    }
}

/// Build the text whose hash registers an experiment.
pub fn preregistration_hash_input(
    mode: ExperimentMode,
    config: &ExperimentConfig,
    double_blind: bool,
    operator: Option<&str>,
    timestamp: &str,
) -> (s: String)
    ensures
        s@ == spec_prereg_hash_input(
            mode,
            config.trials_per_phase,
            config.bits_per_trial,
            double_blind,
            match operator {
                Some(o) => Some(o@),
                None => None,
            },
            timestamp@,
        ),
{
    let mut out: Vec<char> = Vec::new();
    let name = mode.to_string();
    push_str_chars(&mut out, name.as_str());
    out.push(':');
    push_dec(&mut out, config.trials_per_phase as u64);
    out.push(':');
    push_dec(&mut out, config.bits_per_trial as u64);
    out.push(':');
    push_bool_text(&mut out, double_blind);
    out.push(':');
    match operator {
        Some(o) => push_str_chars(&mut out, o),
        None => push_str_chars(&mut out, "anonymous"),
    }
    out.push(':');
    push_str_chars(&mut out, timestamp);
    assert(out@ =~= spec_prereg_hash_input(
        mode,
        config.trials_per_phase,
        config.bits_per_trial,
        double_blind,
        match operator {
            Some(o) => Some(o@),
            None => None,
        },
        timestamp@,
    ));
    string_from_chars(&out)
}

/// Render the registration timestamp: the ISO-8601 UTC time of the clock
/// reading, or empty when the clock reads before the epoch.
pub fn timestamp_text(secs: Option<u64>) -> (s: String)
    ensures
        s@ == spec_timestamp_text(secs),
{
    match secs {
        Some(t) => format_iso8601(t),
        None => String::new(),
    }
}

/// Generate a pre-registration record at the given clock reading (seconds
/// since the Unix epoch; `None` when the clock reads before the epoch).
pub fn generate_preregistration(
    mode: ExperimentMode,
    config: &ExperimentConfig,
    double_blind: bool,
    operator: Option<&str>,
    now_secs: Option<u64>,
) -> (p: PreRegistration)
    ensures
        p.mode == mode,
        p.trials_per_phase == config.trials_per_phase,
        p.bits_per_trial == config.bits_per_trial,
        p.double_blind == double_blind,
        p.timestamp@ == spec_timestamp_text(now_secs),
        match operator {
            Some(o) => p.operator matches Some(po) && po@ == o@,
            None => p.operator is None,
        },
        p.hash@.len() == 64,
        p.hash@ == spec_sha256_hex(
            spec_prereg_hash_input(
                mode,
                config.trials_per_phase,
                config.bits_per_trial,
                double_blind,
                match operator {
                    Some(o) => Some(o@),
                    None => None,
                },
                spec_timestamp_text(now_secs),
            ),
        ),
{
    let timestamp = timestamp_text(now_secs);
    let hash_input = preregistration_hash_input(
        mode,
        config,
        double_blind,
        operator,
        timestamp.as_str(),
    );
    let hash = simple_sha256_hex(hash_input.as_str());
    let op = match operator {
        Some(o) => Some(String::from_str(o)),
        None => None,
    };
    PreRegistration {
        hash,
        mode,
        trials_per_phase: config.trials_per_phase,
        bits_per_trial: config.bits_per_trial,
        timestamp,
        double_blind,
        operator: op,
    }
}

/// SHA-256 hex digest of a text: the lowercase hex of the digest of its
/// UTF-8 bytes, 64 digits.
pub fn simple_sha256_hex(input: &str) -> (s: String)
    ensures
        s@ == spec_sha256_hex(input@),
        s@.len() == 64,
{
    let digest = sha256_digest(input.as_bytes());
    hex_encode(&digest)
}

// ---------------------------------------------------------------------------
// Grouping sources by category
// ---------------------------------------------------------------------------

/// Position `i` belongs to one of the groups.
pub open spec fn in_some_group(groups: Seq<(String, Vec<usize>)>, i: usize) -> bool {
    exists|g: int| 0 <= g < groups.len() && #[trigger] groups[g].1@.contains(i)
}

/// The groups partition the positions of `categories` by category: each
/// group names one category, no two groups the same one, and holds, in
/// increasing order, exactly the positions with that category; groups come
/// in the order their categories first appear.
pub open spec fn groups_by_category(categories: Seq<String>, groups: Seq<(String, Vec<usize>)>) -> bool {
    &&& forall|g: int| 0 <= g < groups.len() ==> #[trigger] groups[g].1@.len() > 0
    &&& forall|g: int, t: int|
        0 <= g < groups.len() && 0 <= t < groups[g].1@.len() ==> {
            let i = #[trigger] groups[g].1@[t];
            &&& i < categories.len()
            &&& categories[i as int]@ == groups[g].0@
        }
    &&& forall|g: int, t1: int, t2: int|
        0 <= g < groups.len() && 0 <= t1 < t2 < groups[g].1@.len() ==> #[trigger] groups[g].1@[t1]
            < #[trigger] groups[g].1@[t2]
    &&& forall|g1: int, g2: int|
        0 <= g1 < g2 < groups.len() ==> #[trigger] groups[g1].0@ != #[trigger] groups[g2].0@
    &&& forall|g1: int, g2: int|
        0 <= g1 < g2 < groups.len() ==> #[trigger] groups[g1].1@[0] < #[trigger] groups[g2].1@[0]
    &&& forall|i: usize| i < categories.len() ==> #[trigger] in_some_group(groups, i)
}

/// Position `j` is among the member lists.
spec fn in_some_member(members: Seq<Vec<usize>>, j: usize) -> bool {
    exists|g: int| 0 <= g < members.len() && #[trigger] members[g]@.contains(j)
}

/// The invariant of the grouping loop over the first `n` positions, kept
/// as parallel key and member lists.
spec fn grouping_upto(categories: Seq<String>, keys: Seq<String>, members: Seq<Vec<usize>>, n: nat) -> bool {
    &&& keys.len() == members.len()
    &&& forall|g: int| 0 <= g < members.len() ==> #[trigger] members[g]@.len() > 0
    &&& forall|g: int, t: int|
        0 <= g < members.len() && 0 <= t < members[g]@.len() ==> {
            let i = #[trigger] members[g]@[t];
            &&& i < n
            &&& categories[i as int]@ == keys[g]@
        }
    &&& forall|g: int, t1: int, t2: int|
        0 <= g < members.len() && 0 <= t1 < t2 < members[g]@.len() ==> #[trigger] members[g]@[t1]
            < #[trigger] members[g]@[t2]
    &&& forall|g1: int, g2: int| 0 <= g1 < g2 < keys.len() ==> #[trigger] keys[g1]@ != #[trigger] keys[g2]@
    &&& forall|g1: int, g2: int|
        0 <= g1 < g2 < members.len() ==> #[trigger] members[g1]@[0] < #[trigger] members[g2]@[0]
    &&& forall|j: usize| j < n ==> #[trigger] in_some_member(members, j)
}

/// Group positions by category: for each category, in order of first
/// appearance, the positions that have it, in increasing order.
pub fn group_sources_by_category(categories: &[String]) -> (groups: Vec<(String, Vec<usize>)>)
    ensures
        groups_by_category(categories@, groups@),
{
    let n = categories.len();
    let mut keys: Vec<String> = Vec::new();
    let mut members: Vec<Vec<usize>> = Vec::new();
    let mut i: usize = 0;
    while i < n
        invariant
            n == categories@.len(),
            i <= n,
            grouping_upto(categories@, keys@, members@, i as nat),
        decreases n - i,
    {
        let mut g: usize = 0;
        let mut found = false;
        while g < keys.len() && !found
            invariant
                keys@.len() == members@.len(),
                i < n,
                n == categories@.len(),
                g <= keys@.len(),
                found ==> g >= 1 && keys@[g - 1]@ == categories@[i as int]@,
                !found ==> forall|h: int| 0 <= h < g ==> keys@[h]@ != categories@[i as int]@,
            decreases keys@.len() - g + if found { 0int } else { 1int },
        {
            if str_eq(keys[g].as_str(), categories[i].as_str()) {
                found = true;
            }
            g = g + 1;
        }
        let ghost old_keys = keys@;
        let ghost old_members = members@;
        if found {
            let at = g - 1;
            let mut v = vstd::slice::slice_to_vec(members[at].as_slice());
            v.push(i);
            members.set(at, v);
            proof {
                assert forall|h: int, t: int|
                    0 <= h < members@.len() && 0 <= t < members@[h]@.len() implies {
                        let x = #[trigger] members@[h]@[t];
                        &&& x < i + 1
                        &&& categories@[x as int]@ == keys@[h]@
                    } by {
                    if h != at {
                        assert(members@[h] == old_members[h]);
                    } else if t < old_members[h]@.len() {
                        assert(members@[h]@[t] == old_members[h]@[t]);
                    }
                }
                assert forall|h: int, t1: int, t2: int|
                    0 <= h < members@.len() && 0 <= t1 < t2 < members@[h]@.len() implies #[trigger] members@[h]@[t1]
                        < #[trigger] members@[h]@[t2] by {
                    if h != at {
                        assert(members@[h] == old_members[h]);
                    } else {
                        assert(members@[h]@[t1] == old_members[h]@[t1]);
                        if t2 < old_members[h]@.len() {
                            assert(members@[h]@[t2] == old_members[h]@[t2]);
                        }
                    }
                }
                assert forall|h1: int, h2: int|
                    0 <= h1 < h2 < members@.len() implies #[trigger] members@[h1]@[0] < #[trigger] members@[h2]@[0] by {
                    assert(members@[h1]@[0] == old_members[h1]@[0]);
                    assert(members@[h2]@[0] == old_members[h2]@[0]);
                }
                assert forall|j: usize| j < i + 1 implies #[trigger] in_some_member(members@, j) by {
                    if j == i {
                        assert(members@[at as int]@[members@[at as int]@.len() - 1] == i);
                        assert(members@[at as int]@.contains(j));
                    } else {
                        assert(in_some_member(old_members, j));
                        let h = choose|h: int| 0 <= h < old_members.len() && #[trigger] old_members[h]@.contains(j);
                        let t = choose|t: int| 0 <= t < old_members[h]@.len() && old_members[h]@[t] == j;
                        assert(members@[h]@[t] == j);
                        assert(members@[h]@.contains(j));
                    }
                }
                assert forall|h: int| 0 <= h < members@.len() implies #[trigger] members@[h]@.len() > 0 by {
                    if h != at {
                        assert(members@[h] == old_members[h]);
                    }
                }
            }
        } else {
            keys.push(categories[i].clone());
            let mut v: Vec<usize> = Vec::new();
            v.push(i);
            members.push(v);
            proof {
                assert(keys@[keys@.len() - 1]@ == categories@[i as int]@);
                assert forall|h: int, t: int|
                    0 <= h < members@.len() && 0 <= t < members@[h]@.len() implies {
                        let x = #[trigger] members@[h]@[t];
                        &&& x < i + 1
                        &&& categories@[x as int]@ == keys@[h]@
                    } by {
                    if h < old_members.len() {
                        assert(members@[h] == old_members[h]);
                        assert(keys@[h] == old_keys[h]);
                    }
                }
                assert forall|h: int, t1: int, t2: int|
                    0 <= h < members@.len() && 0 <= t1 < t2 < members@[h]@.len() implies #[trigger] members@[h]@[t1]
                        < #[trigger] members@[h]@[t2] by {
                    if h < old_members.len() {
                        assert(members@[h] == old_members[h]);
                    }
                }
                assert forall|h1: int, h2: int|
                    0 <= h1 < h2 < keys@.len() implies #[trigger] keys@[h1]@ != #[trigger] keys@[h2]@ by {
                    assert(keys@[h1] == old_keys[h1]);
                    if h2 < old_keys.len() {
                        assert(keys@[h2] == old_keys[h2]);
                    }
                }
                assert forall|h1: int, h2: int|
                    0 <= h1 < h2 < members@.len() implies #[trigger] members@[h1]@[0] < #[trigger] members@[h2]@[0] by {
                    assert(members@[h1] == old_members[h1]);
                    if h2 < old_members.len() {
                        assert(members@[h2] == old_members[h2]);
                    } else {
                        assert(old_members[h1]@[0] < i);
                    }
                }
                assert forall|j: usize| j < i + 1 implies #[trigger] in_some_member(members@, j) by {
                    if j == i {
                        assert(members@[members@.len() - 1]@[0] == i);
                        assert(members@[members@.len() - 1]@.contains(j));
                    } else {
                        assert(in_some_member(old_members, j));
                        let h = choose|h: int| 0 <= h < old_members.len() && #[trigger] old_members[h]@.contains(j);
                        assert(members@[h] == old_members[h]);
                    }
                }
            }
        }
        i = i + 1;
    }
    let mut groups: Vec<(String, Vec<usize>)> = Vec::new();
    let mut g: usize = 0;
    while g < keys.len()
        invariant
            keys@.len() == members@.len(),
            g <= keys@.len(),
            groups@.len() == g,
            forall|h: int| #![trigger groups@[h]] 0 <= h < g ==> groups@[h].0@ == keys@[h]@ && groups@[h].1@ == members@[h]@,
        decreases keys@.len() - g,
    {
        groups.push((keys[g].clone(), vstd::slice::slice_to_vec(members[g].as_slice())));
        g = g + 1;
    }
    proof {
        assert forall|j: usize| j < categories@.len() implies #[trigger] in_some_group(groups@, j) by {
            assert(in_some_member(members@, j));
            let h = choose|h: int| 0 <= h < members@.len() && #[trigger] members@[h]@.contains(j);
            assert(groups@[h].1@ == members@[h]@);
        }
        assert forall|h: int| 0 <= h < groups@.len() implies #[trigger] groups@[h].1@.len() > 0 by {
            assert(groups@[h].1@ == members@[h]@);
        }
        assert forall|h: int, t: int|
            0 <= h < groups@.len() && 0 <= t < groups@[h].1@.len() implies {
                let x = #[trigger] groups@[h].1@[t];
                &&& x < categories@.len()
                &&& categories@[x as int]@ == groups@[h].0@
            } by {
            assert(groups@[h].1@ == members@[h]@);
            assert(members@[h]@[t] == groups@[h].1@[t]);
        }
        assert forall|h: int, t1: int, t2: int|
            0 <= h < groups@.len() && 0 <= t1 < t2 < groups@[h].1@.len() implies #[trigger] groups@[h].1@[t1]
                < #[trigger] groups@[h].1@[t2] by {
            assert(groups@[h].1@ == members@[h]@);
            assert(members@[h]@[t1] == groups@[h].1@[t1]);
            assert(members@[h]@[t2] == groups@[h].1@[t2]);
        }
        assert forall|h1: int, h2: int|
            0 <= h1 < h2 < groups@.len() implies #[trigger] groups@[h1].0@ != #[trigger] groups@[h2].0@ by {
            assert(groups@[h1].0@ == keys@[h1]@);
            assert(groups@[h2].0@ == keys@[h2]@);
        }
        assert forall|h1: int, h2: int|
            0 <= h1 < h2 < groups@.len() implies #[trigger] groups@[h1].1@[0] < #[trigger] groups@[h2].1@[0] by {
            assert(groups@[h1].1@ == members@[h1]@);
            assert(groups@[h2].1@ == members@[h2]@);
            assert(members@[h1]@[0] == groups@[h1].1@[0]);
            assert(members@[h2]@[0] == groups@[h2].1@[0]);
        }
    }
    groups
}

} // verus!
