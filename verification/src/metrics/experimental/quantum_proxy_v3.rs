//! Integer building blocks of the quantum-proxy coupling model: category
//! labels, stress sweep settings, byte binning, circular shifts and the
//! windowing of source streams.

use vstd::prelude::*;

use crate::source::{spec_category_name, SourceCategory};
use crate::counting::count_below;
use crate::metrics::telemetry::ascii_lower;
use crate::text::{spec_str_trim, str_eq, str_trim};

verus! {

// ---------------------------------------------------------------------------
// Category labels
// ---------------------------------------------------------------------------

/// The Unicode lowercase of a text.
pub uninterp spec fn spec_to_lowercase(s: Seq<char>) -> Seq<char>;

/// Calls `str::to_lowercase`; the contract names its result as a function
/// of the text alone, and states it for ASCII text, where Unicode lowercase
/// maps `A`..`Z` to `a`..`z` and leaves every other character as it is.
#[verifier::external_body]
fn str_to_lowercase(s: &str) -> (t: String)
    ensures
        t@ == spec_to_lowercase(s@),
        (forall|i: int| 0 <= i < s@.len() ==> (#[trigger] s@[i] as u32) < 128) ==> t@ == Seq::new(
            s@.len(),
            |i: int| ascii_lower(s@[i]),
        ),
{
    s.to_lowercase()
}

/// The category a normalized label names, if any.
pub open spec fn spec_category_of_label(label: Seq<char>) -> Option<SourceCategory> {
    if label == "thermal"@ {
        Some(SourceCategory::Thermal)
    } else if label == "timing"@ {
        Some(SourceCategory::Timing)
    } else if label == "scheduling"@ {
        Some(SourceCategory::Scheduling)
    } else if label == "io"@ {
        Some(SourceCategory::IO)
    } else if label == "ipc"@ {
        Some(SourceCategory::IPC)
    } else if label == "microarch"@ {
        Some(SourceCategory::Microarch)
    } else if label == "gpu"@ {
        Some(SourceCategory::GPU)
    } else if label == "network"@ {
        Some(SourceCategory::Network)
    } else if label == "system"@ {
        Some(SourceCategory::System)
    } else if label == "composite"@ {
        Some(SourceCategory::Composite)
    } else if label == "signal"@ {
        Some(SourceCategory::Signal)
    } else if label == "sensor"@ {
        Some(SourceCategory::Sensor)
    } else {
        None
    }
}

/// Map an already normalized (trimmed, lowercase) label to its category.
pub fn category_from_label(label: &str) -> (c: Option<SourceCategory>)
    ensures
        c == spec_category_of_label(label@),
{
    if str_eq(label, "thermal") {
        Some(SourceCategory::Thermal)
    } else if str_eq(label, "timing") {
        Some(SourceCategory::Timing)
    } else if str_eq(label, "scheduling") {
        Some(SourceCategory::Scheduling)
    } else if str_eq(label, "io") {
        Some(SourceCategory::IO)
    } else if str_eq(label, "ipc") {
        Some(SourceCategory::IPC)
    } else if str_eq(label, "microarch") {
        Some(SourceCategory::Microarch)
    } else if str_eq(label, "gpu") {
        Some(SourceCategory::GPU)
    } else if str_eq(label, "network") {
        Some(SourceCategory::Network)
    } else if str_eq(label, "system") {
        Some(SourceCategory::System)
    } else if str_eq(label, "composite") {
        Some(SourceCategory::Composite)
    } else if str_eq(label, "signal") {
        Some(SourceCategory::Signal)
    } else if str_eq(label, "sensor") {
        Some(SourceCategory::Sensor)
    } else {
        None
    }
}

/// Parse a category label into `SourceCategory`: the label is trimmed and
/// lowercased, then matched against the category names.
pub fn parse_source_category(category: &str) -> (c: Option<SourceCategory>)
    ensures
        c == spec_category_of_label(spec_to_lowercase(spec_str_trim(category@))),
{
    let trimmed = str_trim(category);
    let lower = str_to_lowercase(trimmed);
    category_from_label(lower.as_str())
}

/// Categories whose display label parses back to the category.
pub open spec fn is_parseable_category(c: SourceCategory) -> bool {
    !(c == SourceCategory::Hardware || c == SourceCategory::Silicon || c
        == SourceCategory::CrossDomain || c == SourceCategory::Novel || c
        == SourceCategory::Frontier)
}

/// The display label of a parseable category maps back to the category;
/// the labels of the others map to no category.
pub proof fn lemma_category_label_roundtrip(c: SourceCategory)
    ensures
        is_parseable_category(c) ==> spec_category_of_label(spec_category_name(c)) == Some(c),
        !is_parseable_category(c) ==> spec_category_of_label(spec_category_name(c)) is None,
{
    reveal_strlit("timing");
    reveal_strlit("system");
    reveal_strlit("network");
    reveal_strlit("hardware");
    reveal_strlit("silicon");
    reveal_strlit("cross_domain");
    reveal_strlit("novel");
    reveal_strlit("frontier");
    reveal_strlit("thermal");
    reveal_strlit("scheduling");
    reveal_strlit("io");
    reveal_strlit("ipc");
    reveal_strlit("microarch");
    reveal_strlit("gpu");
    reveal_strlit("composite");
    reveal_strlit("signal");
    reveal_strlit("sensor");
    assert("timing"@[0] != "system"@[0]);
    assert("timing"@[0] != "network"@[0]);
    assert("timing"@[0] != "hardware"@[0]);
    assert("timing"@[0] != "silicon"@[0]);
    assert("timing"@[0] != "cross_domain"@[0]);
    assert("timing"@[0] != "novel"@[0]);
    assert("timing"@[0] != "frontier"@[0]);
    assert("timing"@[1] != "thermal"@[1]);
    assert("timing"@[0] != "scheduling"@[0]);
    assert("timing"@[0] != "io"@[0]);
    assert("timing"@[0] != "ipc"@[0]);
    assert("timing"@[0] != "microarch"@[0]);
    assert("timing"@[0] != "gpu"@[0]);
    assert("timing"@[0] != "composite"@[0]);
    assert("timing"@[0] != "signal"@[0]);
    assert("timing"@[0] != "sensor"@[0]);
    assert("system"@[0] != "network"@[0]);
    assert("system"@[0] != "hardware"@[0]);
    assert("system"@[1] != "silicon"@[1]);
    assert("system"@[0] != "cross_domain"@[0]);
    assert("system"@[0] != "novel"@[0]);
    assert("system"@[0] != "frontier"@[0]);
    assert("system"@[0] != "thermal"@[0]);
    assert("system"@[1] != "scheduling"@[1]);
    assert("system"@[0] != "io"@[0]);
    assert("system"@[0] != "ipc"@[0]);
    assert("system"@[0] != "microarch"@[0]);
    assert("system"@[0] != "gpu"@[0]);
    assert("system"@[0] != "composite"@[0]);
    assert("system"@[1] != "signal"@[1]);
    assert("system"@[1] != "sensor"@[1]);
    assert("network"@[0] != "hardware"@[0]);
    assert("network"@[0] != "silicon"@[0]);
    assert("network"@[0] != "cross_domain"@[0]);
    assert("network"@[1] != "novel"@[1]);
    assert("network"@[0] != "frontier"@[0]);
    assert("network"@[0] != "thermal"@[0]);
    assert("network"@[0] != "scheduling"@[0]);
    assert("network"@[0] != "io"@[0]);
    assert("network"@[0] != "ipc"@[0]);
    assert("network"@[0] != "microarch"@[0]);
    assert("network"@[0] != "gpu"@[0]);
    assert("network"@[0] != "composite"@[0]);
    assert("network"@[0] != "signal"@[0]);
    assert("network"@[0] != "sensor"@[0]);
    assert("hardware"@[0] != "silicon"@[0]);
    assert("hardware"@[0] != "cross_domain"@[0]);
    assert("hardware"@[0] != "novel"@[0]);
    assert("hardware"@[0] != "frontier"@[0]);
    assert("hardware"@[0] != "thermal"@[0]);
    assert("hardware"@[0] != "scheduling"@[0]);
    assert("hardware"@[0] != "io"@[0]);
    assert("hardware"@[0] != "ipc"@[0]);
    assert("hardware"@[0] != "microarch"@[0]);
    assert("hardware"@[0] != "gpu"@[0]);
    assert("hardware"@[0] != "composite"@[0]);
    assert("hardware"@[0] != "signal"@[0]);
    assert("hardware"@[0] != "sensor"@[0]);
    assert("silicon"@[0] != "cross_domain"@[0]);
    assert("silicon"@[0] != "novel"@[0]);
    assert("silicon"@[0] != "frontier"@[0]);
    assert("silicon"@[0] != "thermal"@[0]);
    assert("silicon"@[1] != "scheduling"@[1]);
    assert("silicon"@[0] != "io"@[0]);
    assert("silicon"@[0] != "ipc"@[0]);
    assert("silicon"@[0] != "microarch"@[0]);
    assert("silicon"@[0] != "gpu"@[0]);
    assert("silicon"@[0] != "composite"@[0]);
    assert("silicon"@[2] != "signal"@[2]);
    assert("silicon"@[1] != "sensor"@[1]);
    assert("cross_domain"@[0] != "novel"@[0]);
    assert("cross_domain"@[0] != "frontier"@[0]);
    assert("cross_domain"@[0] != "thermal"@[0]);
    assert("cross_domain"@[0] != "scheduling"@[0]);
    assert("cross_domain"@[0] != "io"@[0]);
    assert("cross_domain"@[0] != "ipc"@[0]);
    assert("cross_domain"@[0] != "microarch"@[0]);
    assert("cross_domain"@[0] != "gpu"@[0]);
    assert("cross_domain"@[1] != "composite"@[1]);
    assert("cross_domain"@[0] != "signal"@[0]);
    assert("cross_domain"@[0] != "sensor"@[0]);
    assert("novel"@[0] != "frontier"@[0]);
    assert("novel"@[0] != "thermal"@[0]);
    assert("novel"@[0] != "scheduling"@[0]);
    assert("novel"@[0] != "io"@[0]);
    assert("novel"@[0] != "ipc"@[0]);
    assert("novel"@[0] != "microarch"@[0]);
    assert("novel"@[0] != "gpu"@[0]);
    assert("novel"@[0] != "composite"@[0]);
    assert("novel"@[0] != "signal"@[0]);
    assert("novel"@[0] != "sensor"@[0]);
    assert("frontier"@[0] != "thermal"@[0]);
    assert("frontier"@[0] != "scheduling"@[0]);
    assert("frontier"@[0] != "io"@[0]);
    assert("frontier"@[0] != "ipc"@[0]);
    assert("frontier"@[0] != "microarch"@[0]);
    assert("frontier"@[0] != "gpu"@[0]);
    assert("frontier"@[0] != "composite"@[0]);
    assert("frontier"@[0] != "signal"@[0]);
    assert("frontier"@[0] != "sensor"@[0]);
    assert("thermal"@[0] != "scheduling"@[0]);
    assert("thermal"@[0] != "io"@[0]);
    assert("thermal"@[0] != "ipc"@[0]);
    assert("thermal"@[0] != "microarch"@[0]);
    assert("thermal"@[0] != "gpu"@[0]);
    assert("thermal"@[0] != "composite"@[0]);
    assert("thermal"@[0] != "signal"@[0]);
    assert("thermal"@[0] != "sensor"@[0]);
    assert("scheduling"@[0] != "io"@[0]);
    assert("scheduling"@[0] != "ipc"@[0]);
    assert("scheduling"@[0] != "microarch"@[0]);
    assert("scheduling"@[0] != "gpu"@[0]);
    assert("scheduling"@[0] != "composite"@[0]);
    assert("scheduling"@[1] != "signal"@[1]);
    assert("scheduling"@[1] != "sensor"@[1]);
    assert("io"@[1] != "ipc"@[1]);
    assert("io"@[0] != "microarch"@[0]);
    assert("io"@[0] != "gpu"@[0]);
    assert("io"@[0] != "composite"@[0]);
    assert("io"@[0] != "signal"@[0]);
    assert("io"@[0] != "sensor"@[0]);
    assert("ipc"@[0] != "microarch"@[0]);
    assert("ipc"@[0] != "gpu"@[0]);
    assert("ipc"@[0] != "composite"@[0]);
    assert("ipc"@[0] != "signal"@[0]);
    assert("ipc"@[0] != "sensor"@[0]);
    assert("microarch"@[0] != "gpu"@[0]);
    assert("microarch"@[0] != "composite"@[0]);
    assert("microarch"@[0] != "signal"@[0]);
    assert("microarch"@[0] != "sensor"@[0]);
    assert("gpu"@[0] != "composite"@[0]);
    assert("gpu"@[0] != "signal"@[0]);
    assert("gpu"@[0] != "sensor"@[0]);
    assert("composite"@[0] != "signal"@[0]);
    assert("composite"@[0] != "sensor"@[0]);
    assert("signal"@[1] != "sensor"@[1]);
}

// ---------------------------------------------------------------------------
// Stress sweep settings
// ---------------------------------------------------------------------------

/// Stress sweep settings for measured stress sensitivity.
#[derive(Debug, Clone, Copy, PartialEq, Eq, Structural)]
pub struct StressSweepConfig {
    /// Enable stress sweeps.
    pub enabled: bool,
    /// Warmup before each stressed sampling pass.
    pub warmup_ms: u64,
    /// CPU worker threads for compute stress.
    pub cpu_threads: usize,
    /// Memory worker threads.
    pub memory_threads: usize,
    /// Memory footprint per memory worker.
    pub memory_megabytes_per_thread: usize,
    /// Scheduler churn worker threads.
    pub scheduler_threads: usize,
}

/// CPU stress workers for a machine: one less than the available
/// parallelism (1 when unknown), clamped to `1..=8`.
pub open spec fn spec_cpu_threads(available: Option<usize>) -> usize {
    let base: int = match available {
        Some(n) => if n >= 1 {
            n - 1
        } else {
            0
        },
        None => 1,
    };
    if base < 1 {
        1
    } else if base > 8 {
        8
    } else {
        base as usize
    }
}

impl StressSweepConfig {
    /// The default settings for a machine with the given available
    /// parallelism (`None` when it cannot be determined).
    pub fn default_for_parallelism(available: Option<usize>) -> (c: Self)
        ensures
            c.enabled,
            c.warmup_ms == 180,
            c.cpu_threads == spec_cpu_threads(available),
            1 <= c.cpu_threads <= 8,
            c.memory_threads == 1,
            c.memory_megabytes_per_thread == 64,
            c.scheduler_threads == 2,
    {
        let base = match available {
            Some(n) => if n >= 1 {
                n - 1
            } else {
                0
            },
            None => 1,
        };
        let cpu_threads = if base < 1 {
            1
        } else if base > 8 {
            8
        } else {
            base
        };
        StressSweepConfig {
            enabled: true,
            warmup_ms: 180,
            cpu_threads,
            memory_threads: 1,
            memory_megabytes_per_thread: 64,
            scheduler_threads: 2,
        }
    }
}

// ---------------------------------------------------------------------------
// Binning
// ---------------------------------------------------------------------------

/// `bins` is the nearest integer to the square root of `n`, clamped to
/// `8..=64`: it is in range, not above a smaller clamp bound unless the
/// root is, and not below the larger unless the root is.
pub open spec fn spec_adaptive_bins(n: nat, bins: nat) -> bool {
    &&& 8 <= bins <= 64
    &&& bins > 8 ==> (2 * bins - 1) * (2 * bins - 1) < 4 * n
    &&& bins < 64 ==> 4 * n < (2 * bins + 1) * (2 * bins + 1)
}

/// `(2k+1)^2 < 4n`, computed without overflow for `k <= 64`, `n < 4300`.
fn odd_square_below(k: usize, n: usize) -> (r: bool)
    requires
        k <= 64,
        n < 4300,
    ensures
        r == ((2 * k + 1) * (2 * k + 1) < 4 * n),
{
    let t = 2 * k + 1;
    assert(t * t <= 129 * 129) by (nonlinear_arith)
        requires
            t <= 129,
    ;
    t * t < 4 * n
}

/// An odd square never equals a multiple of four.
proof fn lemma_odd_square_not_mult4(k: int, n: int)
    ensures
        (2 * k + 1) * (2 * k + 1) != 4 * n,
{
    assert((2 * k + 1) * (2 * k + 1) == 4 * (k * k + k) + 1) by (nonlinear_arith);
}

/// Number of histogram bins for `n` samples: `round(sqrt(n))` clamped to
/// `8..=64`.
pub fn adaptive_bin_count(n: usize) -> (bins: usize)
    ensures
        spec_adaptive_bins(n as nat, bins as nat),
{
    if n >= 4300 {
        assert((2 * 64 - 1) * (2 * 64 - 1) == 16129) by (nonlinear_arith);
        return 64;
    }
    let mut k: usize = 8;
    while k < 64 && odd_square_below(k, n)
        invariant
            8 <= k <= 64,
            n < 4300,
            k > 8 ==> (2 * k - 1) * (2 * k - 1) < 4 * n,
        decreases 64 - k,
    {
        assert((2 * (k + 1) - 1) * (2 * (k + 1) - 1) == (2 * k + 1) * (2 * k + 1));
        k = k + 1;
    }
    proof {
        lemma_odd_square_not_mult4(k as int, n as int);
    }
    k
}

/// The bin of byte value `v` among `bins` equal-width bins over `0..256`.
pub open spec fn spec_bytes_to_bin(v: u8, bins: nat) -> nat {
    let b: nat = ((v as nat) * bins) / 256;
    let last: nat = if bins >= 1 {
        (bins - 1) as nat
    } else {
        0
    };
    if b < last {
        b
    } else {
        last
    }
}

/// Map a byte value to one of `bins` equal-width bins.
pub fn bytes_to_bin(v: u8, bins: usize) -> (b: usize)
    requires
        v * bins <= usize::MAX,
    ensures
        b == spec_bytes_to_bin(v, bins as nat),
        bins >= 1 ==> b < bins,
{
    let b = ((v as usize) * bins) / 256;
    let last = if bins >= 1 {
        bins - 1
    } else {
        0
    };
    if b < last {
        b
    } else {
        last
    }
}

// ---------------------------------------------------------------------------
// Binned histograms
// ---------------------------------------------------------------------------

/// The predicate "sample `i` of `data` falls in bin `x`".
pub open spec fn in_bin(data: Seq<u8>, bins: nat, x: nat) -> spec_fn(int) -> bool {
    |i: int| spec_bytes_to_bin(data[i], bins) == x
}

/// The predicate "sample `i` of `a` falls in bin `x` and of `b` in bin `y`".
pub open spec fn in_pair_bin(a: Seq<u8>, b: Seq<u8>, bins: nat, x: nat, y: nat) -> spec_fn(int) -> bool {
    |i: int| spec_bytes_to_bin(a[i], bins) == x && spec_bytes_to_bin(b[i], bins) == y
}

proof fn lemma_pair_index(x: int, y: int, bins: int)
    requires
        0 <= x < bins,
        0 <= y < bins,
    ensures
        0 <= x * bins + y < bins * bins,
{
    assert(0 <= x * bins + y < bins * bins) by (nonlinear_arith)
        requires
            0 <= x < bins,
            0 <= y < bins,
    ;
}

/// Marginal and joint bin counts of the first `min(|a|, |b|)` sample
/// pairs: `(counts of a, counts of b, joint counts at x * bins + y)`.
pub fn binned_histograms(a: &[u8], b: &[u8], bins: usize) -> (hist: (Vec<usize>, Vec<usize>, Vec<usize>))
    requires
        bins * bins <= usize::MAX,
        255 * bins <= usize::MAX,
    ensures
        ({
            let n = if a@.len() < b@.len() { a@.len() } else { b@.len() };
            &&& hist.0@.len() == bins
            &&& hist.1@.len() == bins
            &&& hist.2@.len() == bins * bins
            &&& forall|x: int| 0 <= x < bins ==> #[trigger] hist.0@[x] == count_below(n, in_bin(a@, bins as nat, x as nat))
            &&& forall|y: int| 0 <= y < bins ==> #[trigger] hist.1@[y] == count_below(n, in_bin(b@, bins as nat, y as nat))
            &&& forall|x: int, y: int|
                0 <= x < bins && 0 <= y < bins ==> #[trigger] hist.2@[x * bins + y] == count_below(
                    n,
                    in_pair_bin(a@, b@, bins as nat, x as nat, y as nat),
                )
        }),
{
    if bins == 0 {
        return (Vec::new(), Vec::new(), Vec::new());
    }
    let n = if a.len() < b.len() { a.len() } else { b.len() };
    let mut px: Vec<usize> = vec![0usize; bins];
    let mut py: Vec<usize> = vec![0usize; bins];
    let mut pxy: Vec<usize> = vec![0usize; bins * bins];
    let ghost bn = bins as nat;
    proof {
        assert forall|x: int, y: int| 0 <= x < bins && 0 <= y < bins implies #[trigger] pxy@[x * bins
            + y] == count_below(0, in_pair_bin(a@, b@, bn, x as nat, y as nat)) by {
            lemma_pair_index(x, y, bins as int);
        }
    }
    let mut i: usize = 0;
    while i < n
        invariant
            i <= n,
            n <= a@.len(),
            n <= b@.len(),
            bn == bins,
            bins >= 1,
            bins * bins <= usize::MAX,
            255 * bins <= usize::MAX,
            px@.len() == bins,
            py@.len() == bins,
            pxy@.len() == bins * bins,
            forall|x: int| 0 <= x < bins ==> #[trigger] px@[x] == count_below(i as nat, in_bin(a@, bn, x as nat)),
            forall|y: int| 0 <= y < bins ==> #[trigger] py@[y] == count_below(i as nat, in_bin(b@, bn, y as nat)),
            forall|x: int, y: int|
                0 <= x < bins && 0 <= y < bins ==> #[trigger] pxy@[x * bins + y] == count_below(
                    i as nat,
                    in_pair_bin(a@, b@, bn, x as nat, y as nat),
                ),
            forall|x: int| 0 <= x < bins ==> #[trigger] px@[x] <= i,
            forall|y: int| 0 <= y < bins ==> #[trigger] py@[y] <= i,
            forall|c: int| 0 <= c < bins * bins ==> #[trigger] pxy@[c] <= i,
        decreases n - i,
    {
        proof {
            let (va, vb) = (a@[i as int], b@[i as int]);
            assert(va * bins <= 255 * bins && vb * bins <= 255 * bins) by (nonlinear_arith)
                requires
                    va <= 255,
                    vb <= 255,
            ;
        }
        let x = bytes_to_bin(a[i], bins);
        let y = bytes_to_bin(b[i], bins);
        let ghost old_px = px@;
        let ghost old_py = py@;
        let ghost old_pxy = pxy@;
        proof {
            lemma_pair_index(x as int, y as int, bins as int);
        }
        let c = x * bins + y;
        px.set(x, px[x] + 1);
        py.set(y, py[y] + 1);
        pxy.set(c, pxy[c] + 1);
        proof {
            assert forall|u: int| 0 <= u < bins implies #[trigger] px@[u] == count_below(
                (i + 1) as nat,
                in_bin(a@, bn, u as nat),
            ) && px@[u] <= i + 1 by {
                assert(old_px[u] == count_below(i as nat, in_bin(a@, bn, u as nat)));
            }
            assert forall|u: int| 0 <= u < bins implies #[trigger] py@[u] == count_below(
                (i + 1) as nat,
                in_bin(b@, bn, u as nat),
            ) && py@[u] <= i + 1 by {
                assert(old_py[u] == count_below(i as nat, in_bin(b@, bn, u as nat)));
            }
            assert forall|u: int, v: int| 0 <= u < bins && 0 <= v < bins implies #[trigger] pxy@[u
                * bins + v] == count_below((i + 1) as nat, in_pair_bin(a@, b@, bn, u as nat, v as nat))
                by {
                lemma_pair_index(u, v, bins as int);
                let pred = in_pair_bin(a@, b@, bn, u as nat, v as nat);
                assert(old_pxy[u * bins + v] == count_below(i as nat, pred));
                assert(count_below((i + 1) as nat, pred) == count_below(i as nat, pred) + if pred(
                    i as int,
                ) {
                    1nat
                } else {
                    0nat
                });
                assert(pred(i as int) == (x == u && y == v));
                assert((u * bins + v == c) <==> (u == x && v == y)) by (nonlinear_arith)
                    requires
                        0 <= u < bins,
                        0 <= v < bins,
                        x < bins,
                        y < bins,
                        c == x * bins + y,
                ;
                if u == x && v == y {
                    assert(pxy@[u * bins + v] == old_pxy[c as int] + 1);
                } else {
                    assert(pxy@[u * bins + v] == old_pxy[u * bins + v]);
                }
            }
            assert forall|w: int| 0 <= w < bins * bins implies #[trigger] pxy@[w] <= i + 1 by {
                assert(old_pxy[w] <= i);
            }
        }
        i = i + 1;
    }
    (px, py, pxy)
}

// ---------------------------------------------------------------------------
// Circular shift
// ---------------------------------------------------------------------------

/// `data` rotated left by `shift` positions.
pub open spec fn spec_circular_shift(data: Seq<u8>, shift: nat) -> Seq<u8> {
    if data.len() == 0 {
        Seq::empty()
    } else {
        let s = (shift % data.len()) as int;
        data.subrange(s, data.len() as int) + data.subrange(0, s)
    }
}

/// Copy of `data` rotated left by `shift` positions.
pub fn circular_shift_copy(data: &[u8], shift: usize) -> (out: Vec<u8>)
    ensures
        out@ == spec_circular_shift(data@, shift as nat),
        out@.len() == data@.len(),
        forall|i: int|
            0 <= i < data@.len() ==> #[trigger] out@[i] == data@[(i + shift) % (data@.len() as int)],
{
    let n = data.len();
    if n == 0 {
        return Vec::new();
    }
    let s = shift % n;
    let mut out: Vec<u8> = Vec::with_capacity(n);
    let mut i: usize = s;
    while i < n
        invariant
            n == data@.len(),
            s <= i <= n,
            out@ == data@.subrange(s as int, i as int),
        decreases n - i,
    {
        out.push(data[i]);
        i = i + 1;
        assert(out@ =~= data@.subrange(s as int, i as int));
    }
    let mut k: usize = 0;
    while k < s
        invariant
            n == data@.len(),
            s < n,
            k <= s,
            out@ == data@.subrange(s as int, n as int) + data@.subrange(0, k as int),
        decreases s - k,
    {
        out.push(data[k]);
        k = k + 1;
        assert(out@ =~= data@.subrange(s as int, n as int) + data@.subrange(0, k as int));
    }
    proof {
        assert forall|i: int| 0 <= i < n implies #[trigger] out@[i] == data@[(i + shift) % (
        n as int)] by {
            lemma_rotate_index(n as int, shift as int, s as int, i);
        }
    }
    out
}

proof fn lemma_rotate_index(n: int, shift: int, s: int, i: int)
    requires
        n > 0,
        shift >= 0,
        s == shift % n,
        0 <= i < n,
    ensures
        i < n - s ==> (i + shift) % n == s + i,
        i >= n - s ==> (i + shift) % n == i - (n - s),
{
    assert(shift == (shift / n) * n + s) by (nonlinear_arith)
        requires
            n > 0,
            s == shift % n,
    ;
    let q = shift / n;
    if i < n - s {
        vstd::arithmetic::div_mod::lemma_fundamental_div_mod_converse(i + shift, n, q, s + i);
    } else {
        assert((q + 1) * n == q * n + n) by (nonlinear_arith);
        vstd::arithmetic::div_mod::lemma_fundamental_div_mod_converse(
            i + shift,
            n,
            q + 1,
            i - (n - s),
        );
    }
}

// ---------------------------------------------------------------------------
// Null shifts
// ---------------------------------------------------------------------------

/// Number of null rounds actually run: the request, at most 64.
pub open spec fn spec_null_rounds(requested: nat) -> nat {
    if requested > 64 {
        64
    } else {
        requested
    }
}

/// The shift of null round `k` of `rounds` over `n` samples:
/// `(k + 1) * n / (rounds + 1)`, clamped to `1..=n-1`.
pub open spec fn spec_null_shift(n: nat, rounds: nat, k: nat) -> nat {
    let s = ((k + 1) * n) / (rounds + 1);
    if s < 1 {
        1
    } else if s > n - 1 {
        (n - 1) as nat
    } else {
        s
    }
}

/// The circular shifts that build the null distribution of a coupling
/// metric: none for 16 samples or fewer, else one per round, spread evenly
/// over the stream.
pub open spec fn spec_null_shifts(n: nat, requested: nat) -> Seq<usize> {
    let rounds = spec_null_rounds(requested);
    if rounds == 0 || n <= 16 {
        Seq::empty()
    } else {
        Seq::new(rounds, |k: int| spec_null_shift(n, rounds, k as nat) as usize)
    }
}

/// The circular shifts of the null rounds for streams of `n` samples.
pub fn null_shifts(n: usize, requested_rounds: usize) -> (shifts: Vec<usize>)
    requires
        spec_null_rounds(requested_rounds as nat) * n <= usize::MAX,
    ensures
        shifts@ == spec_null_shifts(n as nat, requested_rounds as nat),
        forall|k: int| 0 <= k < shifts@.len() ==> 1 <= #[trigger] shifts@[k] < n,
{
    let rounds = if requested_rounds > 64 {
        64
    } else {
        requested_rounds
    };
    let mut shifts: Vec<usize> = Vec::new();
    if rounds == 0 || n <= 16 {
        return shifts;
    }
    let mut k: usize = 0;
    while k < rounds
        invariant
            k <= rounds,
            rounds == spec_null_rounds(requested_rounds as nat),
            rounds * n <= usize::MAX,
            n > 16,
            shifts@.len() == k,
            forall|j: int| 0 <= j < k ==> #[trigger] shifts@[j] == spec_null_shift(n as nat, rounds as nat, j as nat),
            forall|j: int| 0 <= j < k ==> 1 <= #[trigger] shifts@[j] < n,
        decreases rounds - k,
    {
        proof {
            assert((k + 1) * n <= rounds * n) by (nonlinear_arith)
                requires
                    k + 1 <= rounds,
            ;
        }
        let raw = ((k + 1) * n) / (rounds + 1);
        let s = if raw < 1 {
            1
        } else if raw > n - 1 {
            n - 1
        } else {
            raw
        };
        shifts.push(s);
        k = k + 1;
    }
    assert(shifts@ =~= spec_null_shifts(n as nat, requested_rounds as nat));
    shifts
}

// ---------------------------------------------------------------------------
// Windows
// ---------------------------------------------------------------------------

/// The `(start, end)` ranges of the windows, scanning from `start` with
/// the given step: each window ends `step` after its start or at the end,
/// and is kept when at least `min_len` long.
pub open spec fn window_ranges(len: nat, step: nat, min_len: nat, start: nat) -> Seq<(nat, nat)>
    decreases len - start,
{
    if start + min_len > len || start > len {
        Seq::empty()
    } else if step == 0 {
        seq![(start, start)]
    } else {
        let end: nat = if start + step < len {
            start + step
        } else {
            len
        };
        let here: Seq<(nat, nat)> = if end - start >= min_len {
            seq![(start, end)]
        } else {
            Seq::empty()
        };
        if end == len {
            here
        } else {
            here + window_ranges(len, step, min_len, end)
        }
    }
}

/// The window step: the even share of the data per window, at least
/// `min_len`.
pub open spec fn window_step(len: nat, n_windows: nat, min_len: nat) -> nat {
    let share = len / n_windows;
    if share > min_len {
        share
    } else {
        min_len
    }
}

/// The windows of `data`: none when the data is shorter than `min_len` or
/// no windows are asked for; otherwise consecutive windows of `step` bytes
/// (the last one cut at the end), each kept when at least `min_len` long.
pub open spec fn spec_split_windows(data: Seq<u8>, n_windows: nat, min_len: nat) -> Seq<Seq<u8>> {
    if data.len() < min_len || n_windows == 0 {
        Seq::empty()
    } else {
        let ranges = window_ranges(data.len(), window_step(data.len(), n_windows, min_len), min_len, 0);
        Seq::new(ranges.len(), |k: int| data.subrange(ranges[k].0 as int, ranges[k].1 as int))
    }
}

/// One step of the window scan: the window at `start` (when kept) followed
/// by the windows after it.
proof fn lemma_window_ranges_unfold(len: nat, step: nat, min_len: nat, start: nat)
    requires
        start + min_len <= len,
        step > 0 || len == 0,
    ensures
        ({
            let end: nat = if start + step < len {
                start + step
            } else {
                len
            };
            let here: Seq<(nat, nat)> = if end - start >= min_len {
                seq![(start, end)]
            } else {
                Seq::empty()
            };
            &&& start <= end <= len
            &&& window_ranges(len, step, min_len, start) == here + if end == len {
                Seq::<(nat, nat)>::empty()
            } else {
                window_ranges(len, step, min_len, end)
            }
        }),
{
    if step == 0 {
        assert(seq![(start, start)] =~= seq![(start, start)] + Seq::<(nat, nat)>::empty());
    } else {
        let end: nat = if start + step < len {
            start + step
        } else {
            len
        };
        let here: Seq<(nat, nat)> = if end - start >= min_len {
            seq![(start, end)]
        } else {
            Seq::empty()
        };
        if end == len {
            assert(here =~= here + Seq::<(nat, nat)>::empty());
        }
    }
}

proof fn lemma_window_ranges_facts(len: nat, step: nat, min_len: nat, start: nat)
    requires
        step > 0 || len == 0,
    ensures
        forall|k: int|
            0 <= k < window_ranges(len, step, min_len, start).len() ==> {
                let r = #[trigger] window_ranges(len, step, min_len, start)[k];
                &&& start <= r.0 <= r.1 <= len
                &&& r.1 - r.0 >= min_len
            },
    decreases len - start,
{
    let w = window_ranges(len, step, min_len, start);
    if start + min_len > len || start > len {
        assert(w.len() == 0);
    } else {
        lemma_window_ranges_unfold(len, step, min_len, start);
        let end: nat = if start + step < len {
            start + step
        } else {
            len
        };
        if end != len {
            if step > 0 {
                lemma_window_ranges_facts(len, step, min_len, end);
            }
        }
        assert forall|k: int| 0 <= k < w.len() implies {
            let r = #[trigger] w[k];
            &&& start <= r.0 <= r.1 <= len
            &&& r.1 - r.0 >= min_len
        } by {
            if end - start >= min_len {
                if k > 0 {
                    assert(w[k] == window_ranges(len, step, min_len, end)[k - 1]);
                }
            } else {
                assert(w[k] == window_ranges(len, step, min_len, end)[k]);
            }
        }
    }
}

/// Split data into up to `n_windows` windows of at least `min_len` bytes.
pub fn split_windows(data: &[u8], n_windows: usize, min_len: usize) -> (windows: Vec<&[u8]>)
    requires
        !(min_len == 0 && 0 < data@.len() < n_windows),
    ensures
        windows.deep_view() == spec_split_windows(data@, n_windows as nat, min_len as nat),
        forall|k: int|
            0 <= k < windows@.len() ==> #[trigger] windows@[k]@.len() >= min_len,
{
    let len = data.len();
    if len < min_len || n_windows == 0 {
        let w: Vec<&[u8]> = Vec::new();
        assert(w.deep_view() =~= spec_split_windows(data@, n_windows as nat, min_len as nat));
        return w;
    }
    let share = len / n_windows;
    let step = if share > min_len {
        share
    } else {
        min_len
    };
    let ghost ranges = window_ranges(len as nat, step as nat, min_len as nat, 0);
    proof {
        assert(step > 0 || len == 0) by (nonlinear_arith)
            requires
                share == len / n_windows,
                n_windows > 0,
                step >= share,
                step >= min_len,
                !(min_len == 0 && 0 < len < n_windows),
        ;
        lemma_window_ranges_facts(len as nat, step as nat, min_len as nat, 0);
    }
    let mut windows: Vec<&[u8]> = Vec::new();
    let mut start: usize = 0;
    let ghost mut done: nat = 0;
    loop
        invariant_except_break
            len == data@.len(),
            min_len <= len,
            step > 0 || len == 0,
            start <= len,
            done <= ranges.len(),
            windows@.len() == done,
            forall|k: int|
                0 <= k < done ==> #[trigger] windows@[k]@ == data@.subrange(
                    ranges[k].0 as int,
                    ranges[k].1 as int,
                ),
            ranges.subrange(done as int, ranges.len() as int) == window_ranges(
                len as nat,
                step as nat,
                min_len as nat,
                start as nat,
            ),
        ensures
            windows@.len() == ranges.len(),
            forall|k: int|
                0 <= k < ranges.len() ==> #[trigger] windows@[k]@ == data@.subrange(
                    ranges[k].0 as int,
                    ranges[k].1 as int,
                ),
        decreases len - start,
    {
        if start > len - min_len {
            assert(window_ranges(len as nat, step as nat, min_len as nat, start as nat) =~= Seq::<(nat, nat)>::empty());
            break;
        }
        let end = if step < len - start {
            start + step
        } else {
            len
        };
        let ghost rest = window_ranges(len as nat, step as nat, min_len as nat, start as nat);
        proof {
            lemma_window_ranges_unfold(len as nat, step as nat, min_len as nat, start as nat);
        }
        let ghost done0 = done;
        let ghost tail = ranges.subrange(done0 as int, ranges.len() as int);
        if end - start >= min_len {
            windows.push(&data[start..end]);
            proof {
                assert(tail[0] == rest[0]);
                assert(ranges[done as int] == tail[0]);
                done = done + 1;
            }
        }
        proof {
            assert(ranges.subrange(done as int, ranges.len() as int) =~= tail.subrange(
                (done - done0) as int,
                tail.len() as int,
            ));
        }
        if end == len {
            proof {
                assert(done == ranges.len());
            }
            break;
        }
        proof {
            assert(ranges.subrange(done as int, ranges.len() as int) =~= window_ranges(
                len as nat,
                step as nat,
                min_len as nat,
                end as nat,
            ));
        }
        start = end;
    }
    assert forall|k: int| 0 <= k < windows@.len() implies #[trigger] windows.deep_view()[k]
        == windows@[k]@ by {
        assert(windows.deep_view()[k] =~= windows@[k]@);
    }
    assert(windows.deep_view() =~= spec_split_windows(data@, n_windows as nat, min_len as nat));
    proof {
        assert forall|k: int| 0 <= k < windows@.len() implies #[trigger] windows@[k]@.len()
            >= min_len by {
            assert(ranges[k].1 - ranges[k].0 >= min_len);
        }
    }
    windows
}

} // verus!
