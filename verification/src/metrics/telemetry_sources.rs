//! What the telemetry collectors make of the machine's own reports: which
//! `/proc/meminfo` and `vm_stat` entries become which memory metrics, which
//! hwmon input files become which sensor readings and under which key, the
//! boot time in `kern.boottime`, and the order of a snapshot's metrics.

use vstd::prelude::*;

use crate::metrics::telemetry::{normalize_key, spec_normalize_key};
use crate::session::{find_char_from, index_of, lemma_index_of, starts_with_at};
use crate::text::{parse_u64, spec_parse_u64, str_eq, str_to_chars, str_trim, string_from_chars, spec_str_trim};

verus! {

// ---------------------------------------------------------------------------
// Memory entries
// ---------------------------------------------------------------------------

/// The memory metric that a `/proc/meminfo` entry is reported as.
pub open spec fn spec_meminfo_metric(key: Seq<char>) -> Option<Seq<char>> {
    if key == "MemTotal"@ {
        Some("total_bytes"@)
    } else if key == "MemAvailable"@ {
        Some("available_bytes"@)
    } else if key == "MemFree"@ {
        Some("free_bytes"@)
    } else if key == "Buffers"@ {
        Some("buffers_bytes"@)
    } else if key == "Cached"@ {
        Some("cached_bytes"@)
    } else if key == "SwapTotal"@ {
        Some("swap_total_bytes"@)
    } else if key == "SwapFree"@ {
        Some("swap_free_bytes"@)
    } else if key == "SwapCached"@ {
        Some("swap_cached_bytes"@)
    } else {
        None
    }
}

/// The view of an optional string.
pub open spec fn opt_view(s: Option<String>) -> Option<Seq<char>> {
    match s {
        Some(t) => Some(t@),
        None => None,
    }
}

/// The memory metric name for a `/proc/meminfo` key (the text before its
/// `:`), or `None` for an entry that is not reported.
pub fn meminfo_metric_name(key: &str) -> (name: Option<String>)
    ensures
        opt_view(name) == spec_meminfo_metric(key@),
{
    if str_eq(key, "MemTotal") {
        Some(String::from_str("total_bytes"))
    } else if str_eq(key, "MemAvailable") {
        Some(String::from_str("available_bytes"))
    } else if str_eq(key, "MemFree") {
        Some(String::from_str("free_bytes"))
    } else if str_eq(key, "Buffers") {
        Some(String::from_str("buffers_bytes"))
    } else if str_eq(key, "Cached") {
        Some(String::from_str("cached_bytes"))
    } else if str_eq(key, "SwapTotal") {
        Some(String::from_str("swap_total_bytes"))
    } else if str_eq(key, "SwapFree") {
        Some(String::from_str("swap_free_bytes"))
    } else if str_eq(key, "SwapCached") {
        Some(String::from_str("swap_cached_bytes"))
    } else {
        None
    }
}

/// The memory metric that a `vm_stat` entry (its trimmed key) is reported
/// as.
pub open spec fn spec_vm_stat_metric(key: Seq<char>) -> Option<Seq<char>> {
    if key == "Pages free"@ {
        Some("free_bytes"@)
    } else if key == "Pages active"@ {
        Some("active_bytes"@)
    } else if key == "Pages inactive"@ {
        Some("inactive_bytes"@)
    } else if key == "Pages speculative"@ {
        Some("speculative_bytes"@)
    } else if key == "Pages throttled"@ {
        Some("throttled_bytes"@)
    } else if key == "Pages wired down"@ {
        Some("wired_bytes"@)
    } else if key == "Pages occupied by compressor"@ {
        Some("compressed_bytes"@)
    } else {
        None
    }
}

/// The memory metric name for a `vm_stat` key (the text before its `:`,
/// trimmed here), or `None` for an entry that is not reported.
pub fn vm_stat_metric_name(key: &str) -> (name: Option<String>)
    ensures
        opt_view(name) == spec_vm_stat_metric(spec_str_trim(key@)),
{
    let k = str_trim(key);
    if str_eq(k, "Pages free") {
        Some(String::from_str("free_bytes"))
    } else if str_eq(k, "Pages active") {
        Some(String::from_str("active_bytes"))
    } else if str_eq(k, "Pages inactive") {
        Some(String::from_str("inactive_bytes"))
    } else if str_eq(k, "Pages speculative") {
        Some(String::from_str("speculative_bytes"))
    } else if str_eq(k, "Pages throttled") {
        Some(String::from_str("throttled_bytes"))
    } else if str_eq(k, "Pages wired down") {
        Some(String::from_str("wired_bytes"))
    } else if str_eq(k, "Pages occupied by compressor") {
        Some(String::from_str("compressed_bytes"))
    } else {
        None
    }
}

// ---------------------------------------------------------------------------
// hwmon sensor files
// ---------------------------------------------------------------------------

/// What an hwmon `*_input` file reads.
#[derive(Debug, Clone, Copy, PartialEq, Eq, Structural)]
pub enum HwmonKind {
    /// `temp*`: millidegrees Celsius.
    Thermal,
    /// `in*`: millivolts.
    Voltage,
    /// `curr*`: milliamperes.
    Current,
    /// `power*`: microwatts.
    Power,
    /// `fan*`: revolutions per minute.
    Cooling,
}

/// The metric domain of a kind of reading.
pub open spec fn spec_hwmon_domain(k: HwmonKind) -> Seq<char> {
    match k {
        HwmonKind::Thermal => "thermal"@,
        HwmonKind::Voltage => "voltage"@,
        HwmonKind::Current => "current"@,
        HwmonKind::Power => "power"@,
        HwmonKind::Cooling => "cooling"@,
    }
}

/// The unit a kind of reading is reported in.
pub open spec fn spec_hwmon_unit(k: HwmonKind) -> Seq<char> {
    match k {
        HwmonKind::Thermal => "C"@,
        HwmonKind::Voltage => "V"@,
        HwmonKind::Current => "A"@,
        HwmonKind::Power => "W"@,
        HwmonKind::Cooling => "rpm"@,
    }
}

/// What the raw reading is divided by to give the reported unit.
pub open spec fn spec_hwmon_divisor(k: HwmonKind) -> u64 {
    match k {
        HwmonKind::Thermal => 1000,
        HwmonKind::Voltage => 1000,
        HwmonKind::Current => 1000,
        HwmonKind::Power => 1_000_000,
        HwmonKind::Cooling => 1,
    }
}

impl HwmonKind {
    /// The metric domain of this kind of reading.
    pub fn domain(&self) -> (s: String)
        ensures
            s@ == spec_hwmon_domain(*self),
    {
        match self {
            HwmonKind::Thermal => String::from_str("thermal"),
            HwmonKind::Voltage => String::from_str("voltage"),
            HwmonKind::Current => String::from_str("current"),
            HwmonKind::Power => String::from_str("power"),
            HwmonKind::Cooling => String::from_str("cooling"),
        }
    }

    /// The unit this kind of reading is reported in.
    pub fn unit(&self) -> (s: String)
        ensures
            s@ == spec_hwmon_unit(*self),
    {
        match self {
            HwmonKind::Thermal => String::from_str("C"),
            HwmonKind::Voltage => String::from_str("V"),
            HwmonKind::Current => String::from_str("A"),
            HwmonKind::Power => String::from_str("W"),
            HwmonKind::Cooling => String::from_str("rpm"),
        }
    }

    /// What the raw reading is divided by to give the reported unit.
    pub fn divisor(&self) -> (d: u64)
        ensures
            d == spec_hwmon_divisor(*self),
    {
        match self {
            HwmonKind::Thermal => 1000,
            HwmonKind::Voltage => 1000,
            HwmonKind::Current => 1000,
            HwmonKind::Power => 1_000_000,
            HwmonKind::Cooling => 1,
        }
    }
}

/// The kind of reading an hwmon file holds: only `*_input` files are read,
/// and the kind goes by the file name's prefix, in this order.
pub open spec fn spec_hwmon_kind(file_name: Seq<char>) -> Option<HwmonKind> {
    if !"_input"@.is_suffix_of(file_name) {
        None
    } else if "temp"@.is_prefix_of(file_name) {
        Some(HwmonKind::Thermal)
    } else if "in"@.is_prefix_of(file_name) {
        Some(HwmonKind::Voltage)
    } else if "curr"@.is_prefix_of(file_name) {
        Some(HwmonKind::Current)
    } else if "power"@.is_prefix_of(file_name) {
        Some(HwmonKind::Power)
    } else if "fan"@.is_prefix_of(file_name) {
        Some(HwmonKind::Cooling)
    } else {
        None
    }
}

/// Whether `p` starts `s`.
fn has_prefix(s: &Vec<char>, p: &str) -> (b: bool)
    ensures
        b == p@.is_prefix_of(s@),
{
    let pc = str_to_chars(p);
    if pc.len() > s.len() {
        return false;
    }
    let b = starts_with_at(s, &pc, 0);
    assert(s@.skip(0) =~= s@);
    b
}

/// Whether `p` ends `s`.
fn has_suffix(s: &Vec<char>, p: &str) -> (b: bool)
    ensures
        b == p@.is_suffix_of(s@),
{
    let pc = str_to_chars(p);
    if pc.len() > s.len() {
        return false;
    }
    let at = s.len() - pc.len();
    let b = starts_with_at(s, &pc, at);
    assert(b == p@.is_suffix_of(s@)) by {
        let t = s@.skip(at as int);
        assert(t.len() == p@.len());
        if b {
            assert forall|j: int| 0 <= j < p@.len() implies p@[j] == s@[s@.len() - p@.len() + j] by {
                assert(p@[j] == t[j]);
            }
        }
        if p@.is_suffix_of(s@) {
            assert(p@ =~= t.take(p@.len() as int));
        }
    }
    b
}

/// The kind of reading in the hwmon file `file_name`, or `None` when the
/// file is not an input the collector reports.
pub fn hwmon_input_kind(file_name: &str) -> (kind: Option<HwmonKind>)
    ensures
        kind == spec_hwmon_kind(file_name@),
{
    let s = str_to_chars(file_name);
    if !has_suffix(&s, "_input") {
        None
    } else if has_prefix(&s, "temp") {
        Some(HwmonKind::Thermal)
    } else if has_prefix(&s, "in") {
        Some(HwmonKind::Voltage)
    } else if has_prefix(&s, "curr") {
        Some(HwmonKind::Current)
    } else if has_prefix(&s, "power") {
        Some(HwmonKind::Power)
    } else if has_prefix(&s, "fan") {
        Some(HwmonKind::Cooling)
    } else {
        None
    }
}

/// `s` with every match of `pat`, taken left to right without overlap,
/// replaced by `rep` (as `str::replace` does for a non-empty pattern).
pub open spec fn replace_all(s: Seq<char>, pat: Seq<char>, rep: Seq<char>) -> Seq<char>
    decreases s.len(),
{
    if s.len() == 0 {
        s
    } else if pat.len() > 0 && pat.is_prefix_of(s) {
        rep + replace_all(s.skip(pat.len() as int), pat, rep)
    } else {
        seq![s[0]] + replace_all(s.drop_first(), pat, rep)
    }
}

/// `s` with every trailing repetition of `pat` removed (as
/// `str::trim_end_matches` does for a non-empty pattern).
pub open spec fn strip_suffix_all(s: Seq<char>, pat: Seq<char>) -> Seq<char>
    decreases s.len(),
{
    if pat.len() > 0 && pat.is_suffix_of(s) {
        strip_suffix_all(s.take(s.len() - pat.len()), pat)
    } else {
        s
    }
}

/// The name of the label file that goes with an hwmon input file: every
/// `_input` in the name becomes `_label`.
pub fn hwmon_label_file_name(input_file: &str) -> (name: String)
    ensures
        name@ == replace_all(input_file@, "_input"@, "_label"@),
{
    let s = str_to_chars(input_file);
    let pat = str_to_chars("_input");
    let rep = str_to_chars("_label");
    proof {
        reveal_strlit("_input");
    }
    let n = s.len();
    let pl = pat.len();
    let ghost full = replace_all(s@, pat@, rep@);
    let mut out: Vec<char> = Vec::new();
    let mut i: usize = 0;
    assert(s@.skip(0) =~= s@);
    while i < n
        invariant
            n == s@.len(),
            s@ == input_file@,
            pat@ == "_input"@,
            rep@ == "_label"@,
            pl == pat@.len(),
            pl > 0,
            i <= n,
            full == replace_all(s@, pat@, rep@),
            out@ + replace_all(s@.skip(i as int), pat@, rep@) == full,
        decreases n - i,
    {
        let ghost rest = s@.skip(i as int);
        if pl <= n - i && starts_with_at(&s, &pat, i) {
            assert(pat@.is_prefix_of(rest));
            assert(rest.skip(pl as int) =~= s@.skip(i + pl));
            let ghost before = out@;
            let mut k: usize = 0;
            while k < rep.len()
                invariant
                    k <= rep@.len(),
                    out@ == before + rep@.take(k as int),
                decreases rep@.len() - k,
            {
                out.push(rep[k]);
                k = k + 1;
                assert(out@ =~= before + rep@.take(k as int));
            }
            assert(rep@.take(rep@.len() as int) =~= rep@);
            assert(out@ + replace_all(s@.skip(i + pl), pat@, rep@) =~= before + (rep@ + replace_all(rest.skip(pl as int), pat@, rep@)));
            i = i + pl;
        } else {
            assert(!pat@.is_prefix_of(rest));
            assert(rest.drop_first() =~= s@.skip(i + 1));
            assert(rest[0] == s@[i as int]);
            let ghost before = out@;
            out.push(s[i]);
            assert(out@ + replace_all(s@.skip(i + 1), pat@, rep@) =~= before + (seq![rest[0]] + replace_all(rest.drop_first(), pat@, rep@)));
            i = i + 1;
        }
    }
    assert(s@.skip(n as int) =~= Seq::<char>::empty());
    assert(out@ =~= full);
    string_from_chars(&out)
}

/// The label of an hwmon reading that has no label file: the input file's
/// name without its trailing `_input`s, as a metric key.
pub fn hwmon_fallback_label(input_file: &str) -> (label: String)
    ensures
        label@ == spec_normalize_key(strip_suffix_all(input_file@, "_input"@)),
{
    let s = str_to_chars(input_file);
    let pat = str_to_chars("_input");
    proof {
        reveal_strlit("_input");
    }
    let pl = pat.len();
    let mut end: usize = s.len();
    assert(s@.take(end as int) =~= s@);
    while end >= pl && starts_with_at(&s, &pat, end - pl)
        invariant
            end <= s@.len(),
            s@ == input_file@,
            pat@ == "_input"@,
            pl == pat@.len(),
            pl > 0,
            strip_suffix_all(s@.take(end as int), pat@) == strip_suffix_all(s@, pat@),
        decreases end,
    {
        let ghost t = s@.take(end as int);
        assert(pat@.is_suffix_of(t)) by {
            assert forall|j: int| 0 <= j < pl implies pat@[j] == t[t.len() - pl + j] by {
                assert(s@.skip(end - pl)[j] == s@[end - pl + j]);
            }
        }
        assert(t.take(t.len() - pl) =~= s@.take(end - pl));
        end = end - pl;
    }
    let ghost t = s@.take(end as int);
    assert(!pat@.is_suffix_of(t)) by {
        if pat@.is_suffix_of(t) {
            assert(end >= pl);
            assert(pat@.is_prefix_of(s@.skip(end - pl))) by {
                assert forall|j: int| 0 <= j < pl implies pat@[j] == s@.skip(end - pl)[j] by {
                    assert(t[t.len() - pl + j] == s@[end - pl + j]);
                }
            }
        }
    }
    let mut kept: Vec<char> = Vec::new();
    let mut k: usize = 0;
    while k < end
        invariant
            end <= s@.len(),
            k <= end,
            kept@ == s@.take(k as int),
        decreases end - k,
    {
        kept.push(s[k]);
        k = k + 1;
        assert(kept@ =~= s@.take(k as int));
    }
    let stripped = string_from_chars(&kept);
    normalize_key(stripped.as_str())
}

/// The key of an hwmon reading: the chip's key, a `.`, and the label.
pub fn hwmon_metric_key(chip: &str, label: &str) -> (key: String)
    ensures
        key@ == chip@ + seq!['.'] + label@,
{
    let mut out = str_to_chars(chip);
    out.push('.');
    let l = str_to_chars(label);
    let ghost before = out@;
    let mut k: usize = 0;
    while k < l.len()
        invariant
            k <= l@.len(),
            out@ == before + l@.take(k as int),
        decreases l@.len() - k,
    {
        out.push(l[k]);
        k = k + 1;
        assert(out@ =~= before + l@.take(k as int));
    }
    assert(l@.take(l@.len() as int) =~= l@);
    string_from_chars(&out)
}

// ---------------------------------------------------------------------------
// Boot time
// ---------------------------------------------------------------------------

/// The position of the first occurrence of `pat` in `s`, or -1.
pub open spec fn find_first(s: Seq<char>, pat: Seq<char>) -> int
    decreases s.len(),
{
    if pat.is_prefix_of(s) {
        0
    } else if s.len() == 0 {
        -1
    } else {
        let r = find_first(s.drop_first(), pat);
        if r < 0 {
            -1
        } else {
            r + 1
        }
    }
}

/// The piece of `s` between the first and the second occurrence of `pat`
/// (or the end), as `split(pat).nth(1)` gives it; `None` when `pat` does
/// not occur.
pub open spec fn second_piece(s: Seq<char>, pat: Seq<char>) -> Option<Seq<char>> {
    let i = find_first(s, pat);
    if i < 0 {
        None
    } else {
        let rest = s.skip(i + pat.len());
        let j = find_first(rest, pat);
        Some(
            if j < 0 {
                rest
            } else {
                rest.take(j)
            },
        )
    }
}

/// `s` up to its first `c` (all of it when it has none).
pub open spec fn before_char(s: Seq<char>, c: char) -> Seq<char> {
    let i = index_of(s, c);
    if i < 0 {
        s
    } else {
        s.take(i)
    }
}

/// The boot time in seconds that a `kern.boottime` report such as
/// `{ sec = 1700000000, usec = 0 }` gives: the text after the first
/// `sec =`, up to the next `sec =` and then to the first `,`, trimmed and
/// read as a `u64`.
pub open spec fn spec_boot_seconds(raw: Seq<char>) -> Option<u64> {
    match second_piece(raw, "sec ="@) {
        Some(piece) => spec_parse_u64(spec_str_trim(before_char(piece, ','))),
        None => None,
    }
}

proof fn lemma_find_first(t: Seq<char>, pat: Seq<char>, k: int)
    requires
        pat.len() > 0,
        0 <= k <= t.len(),
        forall|j: int| 0 <= j < k ==> !pat.is_prefix_of(#[trigger] t.skip(j)),
        k == t.len() || pat.is_prefix_of(t.skip(k)),
    ensures
        find_first(t, pat) == if k == t.len() {
            -1
        } else {
            k
        },
    decreases t.len(),
{
    if k == 0 {
        assert(t.skip(0) =~= t);
    } else {
        assert(t.skip(0) =~= t);
        assert(!pat.is_prefix_of(t.skip(0)));
        let d = t.drop_first();
        assert forall|j: int| 0 <= j < k - 1 implies !pat.is_prefix_of(#[trigger] d.skip(j)) by {
            assert(d.skip(j) =~= t.skip(j + 1));
        }
        assert(d.skip(k - 1) =~= t.skip(k));
        lemma_find_first(d, pat, k - 1);
    }
}

/// The first position from `from` on where `pat` occurs in `s`, or
/// `s.len()` when it occurs nowhere there.
fn find_pattern_from(s: &Vec<char>, pat: &Vec<char>, from: usize) -> (k: usize)
    requires
        from <= s@.len(),
        pat@.len() > 0,
    ensures
        from <= k <= s@.len(),
        forall|j: int| from <= j < k ==> !pat@.is_prefix_of(#[trigger] s@.skip(j)),
        k < s@.len() ==> pat@.is_prefix_of(s@.skip(k as int)),
{
    let n = s.len();
    let pl = pat.len();
    let mut k: usize = from;
    while k < n && pl <= n - k
        invariant
            n == s@.len(),
            pl == pat@.len(),
            pl > 0,
            from <= k <= n,
            forall|j: int| from <= j < k ==> !pat@.is_prefix_of(#[trigger] s@.skip(j)),
        decreases n - k,
    {
        if starts_with_at(s, pat, k) {
            return k;
        }
        k = k + 1;
    }
    assert forall|j: int| from <= j < n implies !pat@.is_prefix_of(#[trigger] s@.skip(j)) by {
        if j >= k {
            assert(s@.skip(j).len() < pl);
        }
    }
    n
}

/// The boot time in seconds from a `kern.boottime` report, or `None` when
/// the report has no `sec =` field or its value is not a `u64`.
pub fn boot_time_seconds(raw: &str) -> (secs: Option<u64>)
    ensures
        secs == spec_boot_seconds(raw@),
{
    let s = str_to_chars(raw);
    let pat = str_to_chars("sec =");
    proof {
        reveal_strlit("sec =");
    }
    let n = s.len();
    let i = find_pattern_from(&s, &pat, 0);
    proof {
        assert forall|j: int| 0 <= j < i implies !pat@.is_prefix_of(#[trigger] s@.skip(j)) by {}
        lemma_find_first(s@, pat@, i as int);
    }
    if i == n {
        return None;
    }
    let from = i + pat.len();
    let ghost rest = s@.skip(from as int);
    let j = find_pattern_from(&s, &pat, from);
    proof {
        assert forall|t: int| 0 <= t < j - from implies !pat@.is_prefix_of(#[trigger] rest.skip(t)) by {
            assert(rest.skip(t) =~= s@.skip(from + t));
        }
        assert(rest.skip(j - from) =~= s@.skip(j as int));
        lemma_find_first(rest, pat@, j - from);
    }
    let ghost piece = if j == n {
        rest
    } else {
        rest.take(j - from)
    };
    assert(piece =~= s@.subrange(from as int, j as int));
    let c = find_char_from(&s, ',', from);
    let end: usize = if c < j {
        c
    } else {
        j
    };
    proof {
        let ci = if c < j { c - from } else { j - from };
        assert forall|t: int| 0 <= t < ci implies piece[t] != ',' by {
            assert(piece[t] == s@[from + t]);
        }
        if c < j {
            assert(piece[ci] == s@[c as int]);
        }
        lemma_index_of(piece, ',', ci);
        assert(before_char(piece, ',') =~= s@.subrange(from as int, end as int));
    }
    let mut field: Vec<char> = Vec::new();
    let mut k: usize = from;
    while k < end
        invariant
            from <= k <= end,
            end <= s@.len(),
            field@ == s@.subrange(from as int, k as int),
        decreases end - k,
    {
        field.push(s[k]);
        k = k + 1;
        assert(field@ =~= s@.subrange(from as int, k as int));
    }
    let text = string_from_chars(&field);
    parse_u64(str_trim(text.as_str()))
}

} // verus!
