//! Telemetry helpers: normalization of sensor labels into metric keys, the
//! alignment of start and end snapshots into a window, and the elapsed time
//! of a window.

use vstd::prelude::*;

use crate::text::{push_str_chars, str_to_chars, string_from_chars};

verus! {

/// ASCII lowercase of one character.
pub open spec fn ascii_lower(c: char) -> char {
    if 'A' <= c && c <= 'Z' {
        (((c as u8) + 32) as u8) as char
    } else {
        c
    }
}

/// ASCII letter or digit.
pub open spec fn is_ascii_alnum(c: char) -> bool {
    ('a' <= c && c <= 'z') || ('A' <= c && c <= 'Z') || ('0' <= c && c <= '9')
}

/// A character of a key: lowercase letters and digits stay, everything
/// else becomes `_`.
pub open spec fn key_char(c: char) -> char {
    let l = ascii_lower(c);
    if is_ascii_alnum(l) {
        l
    } else {
        '_'
    }
}

/// The first `k` characters of `raw` mapped to key characters, with each
/// run of `_` collapsed to one.
pub open spec fn collapse_key(raw: Seq<char>, k: nat) -> Seq<char>
    decreases k,
{
    if k == 0 {
        Seq::empty()
    } else {
        let prev = collapse_key(raw, (k - 1) as nat);
        let c = key_char(raw[k - 1]);
        if c == '_' && prev.len() > 0 && prev.last() == '_' {
            prev
        } else {
            prev.push(c)
        }
    }
}

/// `s` without its leading `_` characters.
pub open spec fn strip_front_us(s: Seq<char>) -> Seq<char>
    decreases s.len(),
{
    if s.len() > 0 && s[0] == '_' {
        strip_front_us(s.drop_first())
    } else {
        s
    }
}

/// `s` without its trailing `_` characters.
pub open spec fn strip_back_us(s: Seq<char>) -> Seq<char>
    decreases s.len(),
{
    if s.len() > 0 && s.last() == '_' {
        strip_back_us(s.drop_last())
    } else {
        s
    }
}

/// The metric key of a label: lowercase ASCII letters and digits, every
/// run of other characters one `_`, no `_` at either end.
pub open spec fn spec_normalize_key(raw: Seq<char>) -> Seq<char> {
    strip_back_us(strip_front_us(collapse_key(raw, raw.len())))
}

fn key_char_of(c: char) -> (k: char)
    ensures
        k == key_char(c),
{
    let l = if 'A' <= c && c <= 'Z' {
        ((c as u8) + 32) as char
    } else {
        c
    };
    if ('a' <= l && l <= 'z') || ('A' <= l && l <= 'Z') || ('0' <= l && l <= '9') {
        l
    } else {
        '_'
    }
}

/// A character that may appear in a metric key.
pub open spec fn is_key_char(c: char) -> bool {
    ('a' <= c && c <= 'z') || ('0' <= c && c <= '9') || c == '_'
}

/// A metric key: lowercase letters, digits and single `_` separators, with
/// no `_` at either end.
pub open spec fn is_key(s: Seq<char>) -> bool {
    &&& forall|i: int| 0 <= i < s.len() ==> is_key_char(#[trigger] s[i])
    &&& s.len() > 0 ==> s[0] != '_' && s.last() != '_'
    &&& forall|i: int| 0 <= i < s.len() - 1 ==> !(#[trigger] s[i] == '_' && s[i + 1] == '_')
}

proof fn lemma_key_char_shape(c: char)
    ensures
        is_key_char(key_char(c)),
        is_key_char(c) ==> key_char(c) == c,
{
    if 'A' <= c && c <= 'Z' {
        let l = (((c as u8) + 32) as u8) as char;
        assert('a' <= l && l <= 'z');
    }
}

/// Collapsing keeps key characters and never leaves two `_` in a row.
proof fn lemma_collapse_shape(raw: Seq<char>, k: nat)
    requires
        k <= raw.len(),
    ensures
        forall|i: int| 0 <= i < collapse_key(raw, k).len() ==> is_key_char(#[trigger] collapse_key(raw, k)[i]),
        forall|i: int|
            0 <= i < collapse_key(raw, k).len() - 1 ==> !(#[trigger] collapse_key(raw, k)[i] == '_'
                && collapse_key(raw, k)[i + 1] == '_'),
    decreases k,
{
    if k > 0 {
        lemma_collapse_shape(raw, (k - 1) as nat);
        lemma_key_char_shape(raw[k - 1]);
        let prev = collapse_key(raw, (k - 1) as nat);
        let cur = collapse_key(raw, k);
        assert forall|i: int| 0 <= i < cur.len() implies is_key_char(#[trigger] cur[i]) by {
            if i < prev.len() {
                assert(cur[i] == prev[i]);
            }
        }
        assert forall|i: int| 0 <= i < cur.len() - 1 implies !(#[trigger] cur[i] == '_' && cur[i + 1]
            == '_') by {
            if i + 1 < prev.len() {
                assert(cur[i] == prev[i] && cur[i + 1] == prev[i + 1]);
            } else if cur.len() > prev.len() {
                assert(cur[i] == prev.last());
            }
        }
    }
}

/// Dropping leading `_` keeps the shape and leaves no leading `_`.
proof fn lemma_strip_front_shape(s: Seq<char>)
    requires
        forall|i: int| 0 <= i < s.len() ==> is_key_char(#[trigger] s[i]),
        forall|i: int| 0 <= i < s.len() - 1 ==> !(#[trigger] s[i] == '_' && s[i + 1] == '_'),
    ensures
        ({
            let t = strip_front_us(s);
            &&& forall|i: int| 0 <= i < t.len() ==> is_key_char(#[trigger] t[i])
            &&& forall|i: int| 0 <= i < t.len() - 1 ==> !(#[trigger] t[i] == '_' && t[i + 1] == '_')
            &&& t.len() > 0 ==> t[0] != '_'
            &&& exists|a: int| 0 <= a <= s.len() && t == s.subrange(a, s.len() as int)
        }),
    decreases s.len(),
{
    if s.len() > 0 && s[0] == '_' {
        let d = s.drop_first();
        assert forall|i: int| 0 <= i < d.len() implies is_key_char(#[trigger] d[i]) by {
            assert(d[i] == s[i + 1]);
        }
        assert forall|i: int| 0 <= i < d.len() - 1 implies !(#[trigger] d[i] == '_' && d[i + 1] == '_') by {
            assert(d[i] == s[i + 1] && d[i + 1] == s[i + 2]);
        }
        lemma_strip_front_shape(d);
        let t = strip_front_us(d);
        let a = choose|a: int| 0 <= a <= d.len() && t == d.subrange(a, d.len() as int);
        assert(t =~= s.subrange(a + 1, s.len() as int));
    } else {
        assert(s =~= s.subrange(0, s.len() as int));
    }
}

/// Dropping trailing `_` keeps the shape and leaves no trailing `_`.
proof fn lemma_strip_back_shape(s: Seq<char>)
    requires
        forall|i: int| 0 <= i < s.len() ==> is_key_char(#[trigger] s[i]),
        forall|i: int| 0 <= i < s.len() - 1 ==> !(#[trigger] s[i] == '_' && s[i + 1] == '_'),
        s.len() > 0 ==> s[0] != '_',
    ensures
        is_key(strip_back_us(s)),
    decreases s.len(),
{
    if s.len() > 0 && s.last() == '_' {
        let d = s.drop_last();
        assert forall|i: int| 0 <= i < d.len() implies is_key_char(#[trigger] d[i]) by {
            assert(d[i] == s[i]);
        }
        assert forall|i: int| 0 <= i < d.len() - 1 implies !(#[trigger] d[i] == '_' && d[i + 1] == '_') by {
            assert(d[i] == s[i] && d[i + 1] == s[i + 1]);
        }
        if d.len() > 0 {
            assert(d[0] == s[0]);
        }
        lemma_strip_back_shape(d);
    }
}

/// Every key that `normalize_key` produces is a metric key.
pub proof fn lemma_normalized_is_key(raw: Seq<char>)
    ensures
        is_key(spec_normalize_key(raw)),
{
    lemma_collapse_shape(raw, raw.len());
    let c = collapse_key(raw, raw.len());
    lemma_strip_front_shape(c);
    lemma_strip_back_shape(strip_front_us(c));
}

/// Collapsing a key gives the key back.
proof fn lemma_collapse_key_fixed(s: Seq<char>, k: nat)
    requires
        is_key(s),
        k <= s.len(),
    ensures
        collapse_key(s, k) == s.take(k as int),
    decreases k,
{
    if k > 0 {
        lemma_collapse_key_fixed(s, (k - 1) as nat);
        lemma_key_char_shape(s[k - 1]);
        let prev = collapse_key(s, (k - 1) as nat);
        if k >= 2 && s[k - 1] == '_' {
            assert(!(s[k - 2] == '_' && s[k - 1] == '_'));
            assert(prev.last() == s[k - 2]);
        }
        if k == 1 && s.len() > 0 {
            assert(s[0] != '_');
        }
        assert(s.take(k as int) =~= s.take(k - 1).push(s[k - 1]));
    }
}

/// Normalizing a metric key gives it back, so normalizing twice is the
/// same as normalizing once.
pub proof fn lemma_normalize_key_idempotent(raw: Seq<char>)
    ensures
        spec_normalize_key(spec_normalize_key(raw)) == spec_normalize_key(raw),
{
    let key = spec_normalize_key(raw);
    lemma_normalized_is_key(raw);
    lemma_collapse_key_fixed(key, key.len());
    assert(key.take(key.len() as int) =~= key);
    if key.len() > 0 {
        assert(key[0] != '_' && key.last() != '_');
    }
}

/// Normalize a sensor label into a metric key.
pub fn normalize_key(raw: &str) -> (key: String)
    ensures
        key@ == spec_normalize_key(raw@),
{
    let chars = str_to_chars(raw);
    let mut out: Vec<char> = Vec::new();
    let mut i: usize = 0;
    while i < chars.len()
        invariant
            chars@ == raw@,
            i <= chars@.len(),
            out@ == collapse_key(raw@, i as nat),
        decreases chars@.len() - i,
    {
        let c = key_char_of(chars[i]);
        let prev_us = out.len() > 0 && out[out.len() - 1] == '_';
        if !(c == '_' && prev_us) {
            out.push(c);
        }
        i = i + 1;
    }
    let ghost collapsed = out@;
    // strip leading underscores
    let mut a: usize = 0;
    assert(collapsed.subrange(0, collapsed.len() as int) =~= collapsed);
    while a < out.len() && out[a] == '_'
        invariant
            a <= out@.len(),
            out@ == collapsed,
            strip_front_us(collapsed) == strip_front_us(collapsed.subrange(a as int, collapsed.len() as int)),
        decreases out@.len() - a,
    {
        let ghost t = collapsed.subrange(a as int, collapsed.len() as int);
        assert(t.drop_first() =~= collapsed.subrange(a + 1, collapsed.len() as int));
        a = a + 1;
    }
    let ghost front = collapsed.subrange(a as int, collapsed.len() as int);
    assert(strip_front_us(front) == front);
    let mut b: usize = out.len();
    while b > a && out[b - 1] == '_'
        invariant
            a <= b <= out@.len(),
            out@ == collapsed,
            strip_back_us(front) == strip_back_us(collapsed.subrange(a as int, b as int)),
        decreases b,
    {
        let ghost t = collapsed.subrange(a as int, b as int);
        assert(t.drop_last() =~= collapsed.subrange(a as int, b - 1));
        b = b - 1;
    }
    let ghost back = collapsed.subrange(a as int, b as int);
    assert(strip_back_us(back) == back);
    let mut key: Vec<char> = Vec::new();
    let mut k: usize = a;
    while k < b
        invariant
            a <= k <= b,
            b <= out@.len(),
            key@ == out@.subrange(a as int, k as int),
        decreases b - k,
    {
        key.push(out[k]);
        k = k + 1;
        assert(key@ =~= out@.subrange(a as int, k as int));
    }
    string_from_chars(&key)
}

/// Milliseconds between two clock readings, zero when the end reads
/// earlier than the start.
pub fn elapsed_ms(start_unix_ms: u64, end_unix_ms: u64) -> (ms: u64)
    ensures
        ms == if end_unix_ms >= start_unix_ms {
            end_unix_ms - start_unix_ms
        } else {
            0
        },
{
    end_unix_ms.saturating_sub(start_unix_ms)
}

// ---------------------------------------------------------------------------
// Aligning a telemetry window
// ---------------------------------------------------------------------------

/// The identity of a telemetry metric: what a start and an end reading are
/// matched by, and what the window's deltas are ordered by.
#[derive(Debug, Clone)]
pub struct MetricKey {
    pub domain: String,
    pub name: String,
    pub unit: String,
    pub source: String,
}

/// The matching key of a metric: its domain, name, unit and source joined
/// by the unit separator `U+001F`.
pub open spec fn spec_delta_key(m: MetricKey) -> Seq<char> {
    m.domain@ + seq!['\u{1f}'] + m.name@ + seq!['\u{1f}'] + m.unit@ + seq!['\u{1f}'] + m.source@
}

/// Lexicographic order of character sequences, code point by code point;
/// a proper prefix comes first (the order of `String`'s `Ord`).
pub open spec fn seq_lt(a: Seq<char>, b: Seq<char>) -> bool
    decreases a.len(),
{
    if a.len() == 0 {
        b.len() > 0
    } else if b.len() == 0 {
        false
    } else if a[0] != b[0] {
        a[0] < b[0]
    } else {
        seq_lt(a.drop_first(), b.drop_first())
    }
}

proof fn lemma_seq_lt_irreflexive(a: Seq<char>)
    ensures
        !seq_lt(a, a),
    decreases a.len(),
{
    if a.len() > 0 {
        lemma_seq_lt_irreflexive(a.drop_first());
    }
}

proof fn lemma_seq_lt_transitive(a: Seq<char>, b: Seq<char>, c: Seq<char>)
    requires
        seq_lt(a, b),
        seq_lt(b, c),
    ensures
        seq_lt(a, c),
    decreases a.len(),
{
    if a.len() > 0 && b.len() > 0 && c.len() > 0 && a[0] == b[0] && b[0] == c[0] {
        lemma_seq_lt_transitive(a.drop_first(), b.drop_first(), c.drop_first());
    }
}

proof fn lemma_seq_lt_total(a: Seq<char>, b: Seq<char>)
    ensures
        a == b || seq_lt(a, b) || seq_lt(b, a),
    decreases a.len(),
{
    if a.len() > 0 && b.len() > 0 && a[0] == b[0] {
        lemma_seq_lt_total(a.drop_first(), b.drop_first());
        if a.drop_first() == b.drop_first() {
            assert(a =~= seq![a[0]] + a.drop_first());
            assert(b =~= seq![b[0]] + b.drop_first());
        }
    } else if a.len() == 0 && b.len() == 0 {
        assert(a =~= b);
    }
}

proof fn lemma_seq_lt_skip(a: Seq<char>, b: Seq<char>, k: int)
    requires
        0 <= k <= a.len(),
        k <= b.len(),
        a.take(k) == b.take(k),
    ensures
        seq_lt(a, b) == seq_lt(a.skip(k), b.skip(k)),
    decreases k,
{
    if k > 0 {
        assert(a[0] == a.take(k)[0]);
        assert(b[0] == b.take(k)[0]);
        assert(a.drop_first().take(k - 1) =~= a.take(k).drop_first());
        assert(b.drop_first().take(k - 1) =~= b.take(k).drop_first());
        lemma_seq_lt_skip(a.drop_first(), b.drop_first(), k - 1);
        assert(a.drop_first().skip(k - 1) =~= a.skip(k));
        assert(b.drop_first().skip(k - 1) =~= b.skip(k));
    } else {
        assert(a.skip(0) =~= a);
        assert(b.skip(0) =~= b);
    }
}

/// Whether `a` comes before `b` in code point order.
fn chars_lt(a: &Vec<char>, b: &Vec<char>) -> (lt: bool)
    ensures
        lt == seq_lt(a@, b@),
{
    let mut k: usize = 0;
    while k < a.len() && k < b.len() && a[k] == b[k]
        invariant
            k <= a@.len(),
            k <= b@.len(),
            a@.take(k as int) == b@.take(k as int),
        decreases a@.len() - k,
    {
        assert(a@.take(k + 1) =~= a@.take(k as int).push(a@[k as int]));
        assert(b@.take(k + 1) =~= b@.take(k as int).push(b@[k as int]));
        k = k + 1;
    }
    proof {
        lemma_seq_lt_skip(a@, b@, k as int);
    }
    if k == a.len() {
        k < b.len()
    } else if k == b.len() {
        false
    } else {
        a[k] < b[k]
    }
}

/// Whether `a` and `b` hold the same characters.
fn chars_eq(a: &Vec<char>, b: &Vec<char>) -> (eq: bool)
    ensures
        eq == (a@ == b@),
{
    if a.len() != b.len() {
        return false;
    }
    let mut k: usize = 0;
    while k < a.len()
        invariant
            a@.len() == b@.len(),
            k <= a@.len(),
            forall|i: int| 0 <= i < k ==> a@[i] == b@[i],
        decreases a@.len() - k,
    {
        if a[k] != b[k] {
            return false;
        }
        k = k + 1;
    }
    assert(a@ =~= b@);
    true
}

/// Start metric `x` comes before start metric `y` in a window's deltas:
/// ordered by domain, then name, then source, and by position among equals.
pub open spec fn entry_lt(start: Seq<MetricKey>, x: int, y: int) -> bool {
    let a = start[x];
    let b = start[y];
    ||| seq_lt(a.domain@, b.domain@)
    ||| a.domain@ == b.domain@ && seq_lt(a.name@, b.name@)
    ||| a.domain@ == b.domain@ && a.name@ == b.name@ && seq_lt(a.source@, b.source@)
    ||| a.domain@ == b.domain@ && a.name@ == b.name@ && a.source@ == b.source@ && x < y
}

proof fn lemma_entry_lt_order(start: Seq<MetricKey>)
    ensures
        forall|x: int| !entry_lt(start, x, x),
        forall|x: int, y: int, z: int|
            #![trigger entry_lt(start, x, y), entry_lt(start, y, z)]
            entry_lt(start, x, y) && entry_lt(start, y, z) ==> entry_lt(start, x, z),
        forall|x: int, y: int|
            #![trigger entry_lt(start, x, y)]
            x != y ==> entry_lt(start, x, y) || entry_lt(start, y, x),
{
    assert forall|x: int| !entry_lt(start, x, x) by {
        lemma_seq_lt_irreflexive(start[x].domain@);
        lemma_seq_lt_irreflexive(start[x].name@);
        lemma_seq_lt_irreflexive(start[x].source@);
    }
    assert forall|x: int, y: int, z: int|
        entry_lt(start, x, y) && entry_lt(start, y, z) implies entry_lt(start, x, z) by {
        let (a, b, c) = (start[x], start[y], start[z]);
        if seq_lt(a.domain@, b.domain@) && seq_lt(b.domain@, c.domain@) {
            lemma_seq_lt_transitive(a.domain@, b.domain@, c.domain@);
        }
        if seq_lt(a.name@, b.name@) && seq_lt(b.name@, c.name@) {
            lemma_seq_lt_transitive(a.name@, b.name@, c.name@);
        }
        if seq_lt(a.source@, b.source@) && seq_lt(b.source@, c.source@) {
            lemma_seq_lt_transitive(a.source@, b.source@, c.source@);
        }
    }
    assert forall|x: int, y: int| x != y implies entry_lt(start, x, y) || entry_lt(start, y, x) by {
        let (a, b) = (start[x], start[y]);
        lemma_seq_lt_total(a.domain@, b.domain@);
        lemma_seq_lt_total(a.name@, b.name@);
        lemma_seq_lt_total(a.source@, b.source@);
    }
}

/// Position of the last of the first `n` end metrics whose key is `key`,
/// or -1 when none has it.
pub open spec fn last_match(end: Seq<MetricKey>, key: Seq<char>, n: nat) -> int
    decreases n,
{
    if n == 0 {
        -1
    } else if spec_delta_key(end[n - 1]) == key {
        n - 1
    } else {
        last_match(end, key, (n - 1) as nat)
    }
}

proof fn lemma_last_match_range(end: Seq<MetricKey>, key: Seq<char>, n: nat)
    ensures
        -1 <= last_match(end, key, n) < n,
        last_match(end, key, n) >= 0 ==> spec_delta_key(end[last_match(end, key, n)]) == key,
    decreases n,
{
    if n > 0 {
        lemma_last_match_range(end, key, (n - 1) as nat);
    }
}

/// The end metric matched to start metric `i`: the last end metric with the
/// same key, or -1.
pub open spec fn matched_end(start: Seq<MetricKey>, end: Seq<MetricKey>, i: int) -> int {
    last_match(end, spec_delta_key(start[i]), end.len())
}

/// The characters of a metric's matching key.
fn delta_key_chars(m: &MetricKey) -> (key: Vec<char>)
    ensures
        key@ == spec_delta_key(*m),
{
    let mut out: Vec<char> = Vec::new();
    push_str_chars(&mut out, m.domain.as_str());
    out.push('\u{1f}');
    push_str_chars(&mut out, m.name.as_str());
    out.push('\u{1f}');
    push_str_chars(&mut out, m.unit.as_str());
    out.push('\u{1f}');
    push_str_chars(&mut out, m.source.as_str());
    assert(out@ =~= spec_delta_key(*m));
    out
}

/// Whether start metric `x` comes before start metric `y` among the deltas.
fn entry_less(
    domains: &Vec<Vec<char>>,
    names: &Vec<Vec<char>>,
    sources: &Vec<Vec<char>>,
    Ghost(start): Ghost<Seq<MetricKey>>,
    x: usize,
    y: usize,
) -> (lt: bool)
    requires
        x < start.len(),
        y < start.len(),
        domains@.len() == start.len(),
        names@.len() == start.len(),
        sources@.len() == start.len(),
        forall|i: int| 0 <= i < start.len() ==> #[trigger] domains@[i]@ == start[i].domain@,
        forall|i: int| 0 <= i < start.len() ==> #[trigger] names@[i]@ == start[i].name@,
        forall|i: int| 0 <= i < start.len() ==> #[trigger] sources@[i]@ == start[i].source@,
    ensures
        lt == entry_lt(start, x as int, y as int),
{
    assert(domains@[x as int]@ == start[x as int].domain@);
    assert(domains@[y as int]@ == start[y as int].domain@);
    assert(names@[x as int]@ == start[x as int].name@);
    assert(names@[y as int]@ == start[y as int].name@);
    assert(sources@[x as int]@ == start[x as int].source@);
    assert(sources@[y as int]@ == start[y as int].source@);
    if chars_lt(&domains[x], &domains[y]) {
        return true;
    }
    if !chars_eq(&domains[x], &domains[y]) {
        return false;
    }
    if chars_lt(&names[x], &names[y]) {
        return true;
    }
    if !chars_eq(&names[x], &names[y]) {
        return false;
    }
    if chars_lt(&sources[x], &sources[y]) {
        return true;
    }
    if !chars_eq(&sources[x], &sources[y]) {
        return false;
    }
    x < y
}

/// Align the metrics of a telemetry window: each start metric whose key
/// some end metric has is paired with the last such end metric, and the
/// pairs `(start index, end index)` are ordered by the start metric's
/// domain, name and source, equal ones in start order.
pub fn align_metrics(start: &[MetricKey], end: &[MetricKey]) -> (pairs: Vec<(usize, usize)>)
    ensures
        forall|k: int|
            0 <= k < pairs@.len() ==> {
                let (i, j) = #[trigger] pairs@[k];
                &&& i < start@.len()
                &&& j == matched_end(start@, end@, i as int)
            },
        forall|i: int|
            0 <= i < start@.len() && matched_end(start@, end@, i) >= 0 ==> exists|k: int|
                0 <= k < pairs@.len() && #[trigger] pairs@[k].0 == i,
        forall|k1: int, k2: int|
            0 <= k1 < k2 < pairs@.len() ==> entry_lt(
                start@,
                #[trigger] pairs@[k1].0 as int,
                #[trigger] pairs@[k2].0 as int,
            ),
{
    let mut end_keys: Vec<Vec<char>> = Vec::new();
    let mut e: usize = 0;
    while e < end.len()
        invariant
            e <= end@.len(),
            end_keys@.len() == e,
            forall|k: int| 0 <= k < e ==> #[trigger] end_keys@[k]@ == spec_delta_key(end@[k]),
        decreases end@.len() - e,
    {
        end_keys.push(delta_key_chars(&end[e]));
        e = e + 1;
    }
    let mut domains: Vec<Vec<char>> = Vec::new();
    let mut names: Vec<Vec<char>> = Vec::new();
    let mut sources: Vec<Vec<char>> = Vec::new();
    let mut s: usize = 0;
    while s < start.len()
        invariant
            s <= start@.len(),
            domains@.len() == s,
            names@.len() == s,
            sources@.len() == s,
            forall|i: int| 0 <= i < s ==> #[trigger] domains@[i]@ == start@[i].domain@,
            forall|i: int| 0 <= i < s ==> #[trigger] names@[i]@ == start@[i].name@,
            forall|i: int| 0 <= i < s ==> #[trigger] sources@[i]@ == start@[i].source@,
        decreases start@.len() - s,
    {
        domains.push(str_to_chars(start[s].domain.as_str()));
        names.push(str_to_chars(start[s].name.as_str()));
        sources.push(str_to_chars(start[s].source.as_str()));
        s = s + 1;
    }
    proof {
        lemma_entry_lt_order(start@);
    }
    let mut pairs: Vec<(usize, usize)> = Vec::new();
    let mut i: usize = 0;
    while i < start.len()
        invariant
            i <= start@.len(),
            end_keys@.len() == end@.len(),
            forall|k: int| 0 <= k < end@.len() ==> #[trigger] end_keys@[k]@ == spec_delta_key(end@[k]),
            domains@.len() == start@.len(),
            names@.len() == start@.len(),
            sources@.len() == start@.len(),
            forall|k: int| 0 <= k < start@.len() ==> #[trigger] domains@[k]@ == start@[k].domain@,
            forall|k: int| 0 <= k < start@.len() ==> #[trigger] names@[k]@ == start@[k].name@,
            forall|k: int| 0 <= k < start@.len() ==> #[trigger] sources@[k]@ == start@[k].source@,
            forall|x: int| !entry_lt(start@, x, x),
            forall|x: int, y: int, z: int|
                #![trigger entry_lt(start@, x, y), entry_lt(start@, y, z)]
                entry_lt(start@, x, y) && entry_lt(start@, y, z) ==> entry_lt(start@, x, z),
            forall|x: int, y: int|
                #![trigger entry_lt(start@, x, y)]
                x != y ==> entry_lt(start@, x, y) || entry_lt(start@, y, x),
            forall|k: int|
                0 <= k < pairs@.len() ==> {
                    let (a, b) = #[trigger] pairs@[k];
                    &&& a < i
                    &&& b == matched_end(start@, end@, a as int)
                },
            forall|a: int|
                0 <= a < i && matched_end(start@, end@, a) >= 0 ==> exists|k: int|
                    0 <= k < pairs@.len() && #[trigger] pairs@[k].0 == a,
            forall|k1: int, k2: int|
                0 <= k1 < k2 < pairs@.len() ==> entry_lt(
                    start@,
                    #[trigger] pairs@[k1].0 as int,
                    #[trigger] pairs@[k2].0 as int,
                ),
        decreases start@.len() - i,
    {
        let key = delta_key_chars(&start[i]);
        let ghost want = spec_delta_key(start@[i as int]);
        // the last end metric with this key
        let mut j: usize = end.len();
        let mut found: bool = false;
        while j > 0
            invariant_except_break
                j <= end@.len(),
                !found,
                last_match(end@, want, end@.len() as nat) == last_match(end@, want, j as nat),
            invariant
                key@ == want,
                end_keys@.len() == end@.len(),
                forall|k: int| 0 <= k < end@.len() ==> #[trigger] end_keys@[k]@ == spec_delta_key(end@[k]),
            ensures
                found ==> j < end@.len() && last_match(end@, want, end@.len() as nat) == j,
                !found ==> last_match(end@, want, end@.len() as nat) == -1,
            decreases j,
        {
            assert(end_keys@[j - 1]@ == spec_delta_key(end@[j - 1]));
            if chars_eq(&end_keys[j - 1], &key) {
                j = j - 1;
                found = true;
                break;
            }
            j = j - 1;
        }
        if found {
            let ghost before = pairs@;
            // insertion point: after every pair that comes before start metric i
            let mut p: usize = pairs.len();
            while p > 0 && entry_less(&domains, &names, &sources, Ghost(start@), i, pairs[p - 1].0)
                invariant
                    p <= pairs@.len(),
                    pairs@ == before,
                    i < start@.len(),
                    domains@.len() == start@.len(),
                    names@.len() == start@.len(),
                    sources@.len() == start@.len(),
                    forall|k: int| 0 <= k < start@.len() ==> #[trigger] domains@[k]@ == start@[k].domain@,
                    forall|k: int| 0 <= k < start@.len() ==> #[trigger] names@[k]@ == start@[k].name@,
                    forall|k: int| 0 <= k < start@.len() ==> #[trigger] sources@[k]@ == start@[k].source@,
                    forall|k: int| 0 <= k < pairs@.len() ==> (#[trigger] pairs@[k]).0 < i,
                    forall|q: int| p <= q < pairs@.len() ==> entry_lt(start@, i as int, #[trigger] pairs@[q].0 as int),
                decreases p,
            {
                p = p - 1;
            }
            pairs.insert(p, (i, j));
            proof {
                assert(pairs@ == before.insert(p as int, (i, j)));
                if p > 0 {
                    // the pair before the insertion point comes before i
                    let prev = before[p - 1].0 as int;
                    assert(prev != i);
                    assert(entry_lt(start@, prev, i as int) || entry_lt(start@, i as int, prev));
                    assert forall|q: int| 0 <= q < p implies entry_lt(start@, #[trigger] before[q].0 as int, i as int) by {
                        if q < p - 1 {
                            assert(entry_lt(start@, before[q].0 as int, prev));
                        }
                    }
                }
                assert forall|k1: int, k2: int|
                    0 <= k1 < k2 < pairs@.len() implies entry_lt(
                        start@,
                        #[trigger] pairs@[k1].0 as int,
                        #[trigger] pairs@[k2].0 as int,
                    ) by {
                    if k1 < p && k2 < p {
                        assert(pairs@[k1] == before[k1] && pairs@[k2] == before[k2]);
                    } else if k1 < p && k2 == p {
                        assert(pairs@[k1] == before[k1]);
                    } else if k1 < p {
                        assert(pairs@[k1] == before[k1] && pairs@[k2] == before[k2 - 1]);
                        assert(entry_lt(start@, before[k1].0 as int, i as int));
                        assert(entry_lt(start@, i as int, before[k2 - 1].0 as int));
                    } else if k1 == p {
                        assert(pairs@[k2] == before[k2 - 1]);
                    } else {
                        assert(pairs@[k1] == before[k1 - 1] && pairs@[k2] == before[k2 - 1]);
                    }
                }
                assert forall|k: int|
                    0 <= k < pairs@.len() implies {
                        let (a, b) = #[trigger] pairs@[k];
                        &&& a < i + 1
                        &&& b == matched_end(start@, end@, a as int)
                    } by {
                    if k < p {
                        assert(pairs@[k] == before[k]);
                    } else if k > p {
                        assert(pairs@[k] == before[k - 1]);
                    }
                }
                assert forall|a: int|
                    0 <= a < i + 1 && matched_end(start@, end@, a) >= 0 implies exists|k: int|
                        0 <= k < pairs@.len() && #[trigger] pairs@[k].0 == a by {
                    if a == i {
                        assert(pairs@[p as int].0 == a);
                    } else {
                        let k = choose|k: int| 0 <= k < before.len() && #[trigger] before[k].0 == a;
                        if k < p {
                            assert(pairs@[k] == before[k]);
                        } else {
                            assert(pairs@[k + 1] == before[k]);
                        }
                    }
                }
            }
        }
        i = i + 1;
    }
    pairs
}

// ---------------------------------------------------------------------------
// Ordering a snapshot
// ---------------------------------------------------------------------------

/// Metric `x` comes before metric `y` in a snapshot: ordered by domain,
/// then name, then source, then unit, and by position among equals.
pub open spec fn snapshot_lt(keys: Seq<MetricKey>, x: int, y: int) -> bool {
    let a = keys[x];
    let b = keys[y];
    ||| seq_lt(a.domain@, b.domain@)
    ||| a.domain@ == b.domain@ && seq_lt(a.name@, b.name@)
    ||| a.domain@ == b.domain@ && a.name@ == b.name@ && seq_lt(a.source@, b.source@)
    ||| a.domain@ == b.domain@ && a.name@ == b.name@ && a.source@ == b.source@ && seq_lt(a.unit@, b.unit@)
    ||| a.domain@ == b.domain@ && a.name@ == b.name@ && a.source@ == b.source@ && a.unit@ == b.unit@ && x < y
}

proof fn lemma_snapshot_lt_order(keys: Seq<MetricKey>)
    ensures
        forall|x: int| !snapshot_lt(keys, x, x),
        forall|x: int, y: int, z: int|
            #![trigger snapshot_lt(keys, x, y), snapshot_lt(keys, y, z)]
            snapshot_lt(keys, x, y) && snapshot_lt(keys, y, z) ==> snapshot_lt(keys, x, z),
        forall|x: int, y: int|
            #![trigger snapshot_lt(keys, x, y)]
            x != y ==> snapshot_lt(keys, x, y) || snapshot_lt(keys, y, x),
{
    assert forall|x: int| !snapshot_lt(keys, x, x) by {
        lemma_seq_lt_irreflexive(keys[x].domain@);
        lemma_seq_lt_irreflexive(keys[x].name@);
        lemma_seq_lt_irreflexive(keys[x].source@);
        lemma_seq_lt_irreflexive(keys[x].unit@);
    }
    assert forall|x: int, y: int, z: int|
        snapshot_lt(keys, x, y) && snapshot_lt(keys, y, z) implies snapshot_lt(keys, x, z) by {
        let (a, b, c) = (keys[x], keys[y], keys[z]);
        if seq_lt(a.domain@, b.domain@) && seq_lt(b.domain@, c.domain@) {
            lemma_seq_lt_transitive(a.domain@, b.domain@, c.domain@);
        }
        if seq_lt(a.name@, b.name@) && seq_lt(b.name@, c.name@) {
            lemma_seq_lt_transitive(a.name@, b.name@, c.name@);
        }
        if seq_lt(a.source@, b.source@) && seq_lt(b.source@, c.source@) {
            lemma_seq_lt_transitive(a.source@, b.source@, c.source@);
        }
        if seq_lt(a.unit@, b.unit@) && seq_lt(b.unit@, c.unit@) {
            lemma_seq_lt_transitive(a.unit@, b.unit@, c.unit@);
        }
    }
    assert forall|x: int, y: int| x != y implies snapshot_lt(keys, x, y) || snapshot_lt(keys, y, x) by {
        let (a, b) = (keys[x], keys[y]);
        lemma_seq_lt_total(a.domain@, b.domain@);
        lemma_seq_lt_total(a.name@, b.name@);
        lemma_seq_lt_total(a.source@, b.source@);
        lemma_seq_lt_total(a.unit@, b.unit@);
    }
}

/// The characters of each metric's domain, name, source and unit.
struct KeyChars {
    domains: Vec<Vec<char>>,
    names: Vec<Vec<char>>,
    sources: Vec<Vec<char>>,
    units: Vec<Vec<char>>,
}

/// The character vectors hold the keys' fields.
spec fn key_chars_of(c: KeyChars, keys: Seq<MetricKey>) -> bool {
    &&& c.domains@.len() == keys.len()
    &&& c.names@.len() == keys.len()
    &&& c.sources@.len() == keys.len()
    &&& c.units@.len() == keys.len()
    &&& forall|i: int| 0 <= i < keys.len() ==> #[trigger] c.domains@[i]@ == keys[i].domain@
    &&& forall|i: int| 0 <= i < keys.len() ==> #[trigger] c.names@[i]@ == keys[i].name@
    &&& forall|i: int| 0 <= i < keys.len() ==> #[trigger] c.sources@[i]@ == keys[i].source@
    &&& forall|i: int| 0 <= i < keys.len() ==> #[trigger] c.units@[i]@ == keys[i].unit@
}

fn key_chars(keys: &[MetricKey]) -> (c: KeyChars)
    ensures
        key_chars_of(c, keys@),
{
    let mut c = KeyChars { domains: Vec::new(), names: Vec::new(), sources: Vec::new(), units: Vec::new() };
    let mut s: usize = 0;
    while s < keys.len()
        invariant
            s <= keys@.len(),
            key_chars_of(c, keys@.take(s as int)),
        decreases keys@.len() - s,
    {
        c.domains.push(str_to_chars(keys[s].domain.as_str()));
        c.names.push(str_to_chars(keys[s].name.as_str()));
        c.sources.push(str_to_chars(keys[s].source.as_str()));
        c.units.push(str_to_chars(keys[s].unit.as_str()));
        s = s + 1;
        assert(key_chars_of(c, keys@.take(s as int)));
    }
    assert(keys@.take(s as int) =~= keys@);
    c
}

/// Whether metric `x` comes before metric `y` in a snapshot.
fn snapshot_less(c: &KeyChars, Ghost(keys): Ghost<Seq<MetricKey>>, x: usize, y: usize) -> (lt: bool)
    requires
        x < keys.len(),
        y < keys.len(),
        key_chars_of(*c, keys),
    ensures
        lt == snapshot_lt(keys, x as int, y as int),
{
    assert(c.domains@[x as int]@ == keys[x as int].domain@ && c.domains@[y as int]@ == keys[y as int].domain@);
    assert(c.names@[x as int]@ == keys[x as int].name@ && c.names@[y as int]@ == keys[y as int].name@);
    assert(c.sources@[x as int]@ == keys[x as int].source@ && c.sources@[y as int]@ == keys[y as int].source@);
    assert(c.units@[x as int]@ == keys[x as int].unit@ && c.units@[y as int]@ == keys[y as int].unit@);
    if chars_lt(&c.domains[x], &c.domains[y]) {
        return true;
    }
    if !chars_eq(&c.domains[x], &c.domains[y]) {
        return false;
    }
    if chars_lt(&c.names[x], &c.names[y]) {
        return true;
    }
    if !chars_eq(&c.names[x], &c.names[y]) {
        return false;
    }
    if chars_lt(&c.sources[x], &c.sources[y]) {
        return true;
    }
    if !chars_eq(&c.sources[x], &c.sources[y]) {
        return false;
    }
    if chars_lt(&c.units[x], &c.units[y]) {
        return true;
    }
    if !chars_eq(&c.units[x], &c.units[y]) {
        return false;
    }
    x < y
}

/// The order of a snapshot's metrics: every position exactly once, sorted
/// by domain, then name, then source, then unit, equal ones kept in their
/// original order.
pub fn snapshot_order(keys: &[MetricKey]) -> (order: Vec<usize>)
    ensures
        order@.len() == keys@.len(),
        forall|k: int| 0 <= k < order@.len() ==> #[trigger] order@[k] < keys@.len(),
        forall|i: usize| i < keys@.len() ==> #[trigger] order@.contains(i),
        forall|k1: int, k2: int|
            0 <= k1 < k2 < order@.len() ==> snapshot_lt(
                keys@,
                #[trigger] order@[k1] as int,
                #[trigger] order@[k2] as int,
            ),
{
    let c = key_chars(keys);
    proof {
        lemma_snapshot_lt_order(keys@);
    }
    let mut order: Vec<usize> = Vec::new();
    let mut i: usize = 0;
    while i < keys.len()
        invariant
            i <= keys@.len(),
            key_chars_of(c, keys@),
            order@.len() == i,
            forall|x: int| !snapshot_lt(keys@, x, x),
            forall|x: int, y: int, z: int|
                #![trigger snapshot_lt(keys@, x, y), snapshot_lt(keys@, y, z)]
                snapshot_lt(keys@, x, y) && snapshot_lt(keys@, y, z) ==> snapshot_lt(keys@, x, z),
            forall|x: int, y: int|
                #![trigger snapshot_lt(keys@, x, y)]
                x != y ==> snapshot_lt(keys@, x, y) || snapshot_lt(keys@, y, x),
            forall|k: int| 0 <= k < order@.len() ==> #[trigger] order@[k] < i,
            forall|a: usize| a < i ==> #[trigger] order@.contains(a),
            forall|k1: int, k2: int|
                0 <= k1 < k2 < order@.len() ==> snapshot_lt(
                    keys@,
                    #[trigger] order@[k1] as int,
                    #[trigger] order@[k2] as int,
                ),
        decreases keys@.len() - i,
    {
        let ghost before = order@;
        let mut p: usize = order.len();
        while p > 0 && snapshot_less(&c, Ghost(keys@), i, order[p - 1])
            invariant
                p <= order@.len(),
                order@ == before,
                i < keys@.len(),
                key_chars_of(c, keys@),
                forall|k: int| 0 <= k < order@.len() ==> #[trigger] order@[k] < i,
                forall|q: int| p <= q < order@.len() ==> snapshot_lt(keys@, i as int, #[trigger] order@[q] as int),
            decreases p,
        {
            p = p - 1;
        }
        order.insert(p, i);
        proof {
            assert(order@ == before.insert(p as int, i));
            if p > 0 {
                let prev = before[p - 1] as int;
                assert(prev != i);
                assert(snapshot_lt(keys@, prev, i as int) || snapshot_lt(keys@, i as int, prev));
                assert forall|q: int| 0 <= q < p implies snapshot_lt(keys@, #[trigger] before[q] as int, i as int) by {
                    if q < p - 1 {
                        assert(snapshot_lt(keys@, before[q] as int, prev));
                    }
                }
            }
            assert forall|k1: int, k2: int|
                0 <= k1 < k2 < order@.len() implies snapshot_lt(
                    keys@,
                    #[trigger] order@[k1] as int,
                    #[trigger] order@[k2] as int,
                ) by {
                if k1 < p && k2 < p {
                    assert(order@[k1] == before[k1] && order@[k2] == before[k2]);
                } else if k1 < p && k2 == p {
                    assert(order@[k1] == before[k1]);
                } else if k1 < p {
                    assert(order@[k1] == before[k1] && order@[k2] == before[k2 - 1]);
                    assert(snapshot_lt(keys@, before[k1] as int, i as int));
                    assert(snapshot_lt(keys@, i as int, before[k2 - 1] as int));
                } else if k1 == p {
                    assert(order@[k2] == before[k2 - 1]);
                } else {
                    assert(order@[k1] == before[k1 - 1] && order@[k2] == before[k2 - 1]);
                }
            }
            assert forall|k: int| 0 <= k < order@.len() implies #[trigger] order@[k] < i + 1 by {
                if k < p {
                    assert(order@[k] == before[k]);
                } else if k > p {
                    assert(order@[k] == before[k - 1]);
                }
            }
            assert forall|a: usize| a < i + 1 implies #[trigger] order@.contains(a) by {
                if a == i {
                    assert(order@[p as int] == a);
                } else {
                    assert(before.contains(a));
                    let k = choose|k: int| 0 <= k < before.len() && before[k] == a;
                    if k < p {
                        assert(order@[k] == before[k]);
                    } else {
                        assert(order@[k + 1] == before[k]);
                    }
                }
            }
        }
        i = i + 1;
    }
    order
}

} // verus!
