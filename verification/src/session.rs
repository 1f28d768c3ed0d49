//! Session recording for entropy collection research: the session
//! metadata, the bookkeeping of recorded samples, and the text formats
//! (ISO-8601 timestamps, hex, CSV index rows) that a session writes.

use vstd::prelude::*;

use crate::calendar::{
    days_from_date, lemma_days_to_date_roundtrip, month_and_rest, month_days, spec_days_to_date,
    spec_is_leap, year_and_rest, year_days,
};
use crate::conditioning::{spec_mode_name, ConditioningMode};
use crate::text::{
    dec_digits, dec_padded, hex_byte, push_dec, push_dec_padded, push_str_chars, spec_str_trim,
    str_eq, str_to_chars, str_trim, string_from_chars,
};

verus! {

// ---------------------------------------------------------------------------
// UTC calendar arithmetic
// ---------------------------------------------------------------------------

/// Gregorian leap year.
pub fn is_leap(year: u64) -> (leap: bool)
    ensures
        leap == spec_is_leap(year as int),
{
    (year % 4 == 0 && year % 100 != 0) || (year % 400 == 0)
}

/// Days in `year`.
pub(crate) fn year_len(year: u64) -> (n: u64)
    ensures
        n == year_days(year as int),
{
    if is_leap(year) {
        366
    } else {
        365
    }
}

/// Days in month `month` (1 = January) of `year`.
pub(crate) fn month_len(year: u64, month: u64) -> (n: u64)
    ensures
        n == month_days(year as int, month as int),
{
    if month == 2 {
        if is_leap(year) {
            29
        } else {
            28
        }
    } else if month == 4 || month == 6 || month == 9 || month == 11 {
        30
    } else {
        31
    }
}

/// The date `(year, month, day)` that lies `days` days after 1970-01-01.
pub(crate) fn civil_from_days(days: u64) -> (date: (u64, u64, u64))
    ensures
        date.0 as int == spec_days_to_date(days as nat).0,
        date.1 as int == spec_days_to_date(days as nat).1,
        date.2 as int == spec_days_to_date(days as nat).2,
{
    let mut year: u64 = 1970;
    let mut remaining: u64 = days;
    while remaining >= year_len(year)
        invariant
            year >= 1970,
            (year - 1970) * 365 + remaining <= days,
            year_and_rest(remaining as nat, year as int) == year_and_rest(days as nat, 1970),
        decreases remaining,
    {
        remaining = remaining - year_len(year);
        year = year + 1;
    }
    let ghost yr = year_and_rest(days as nat, 1970);
    assert(yr == (year as int, remaining as nat));
    let mut month: u64 = 1;
    while month <= 12 && remaining >= month_len(year, month)
        invariant
            1 <= month <= 13,
            month_and_rest(remaining as nat, year as int, month as int) == month_and_rest(
                yr.1,
                year as int,
                1,
            ),
        decreases 13 - month,
    {
        remaining = remaining - month_len(year, month);
        month = month + 1;
    }
    proof {
        lemma_days_to_date_roundtrip(days as nat);
    }
    (year, month, remaining + 1)
}

/// `(year, month, day, hour, minute, second)` in UTC of a Unix time.
pub open spec fn spec_secs_to_utc(secs: nat) -> (int, int, int, int, int, int) {
    let (y, m, d) = spec_days_to_date(secs / 86400);
    (y, m, d, ((secs / 3600) % 24) as int, ((secs / 60) % 60) as int, (secs % 60) as int)
}

/// Convert seconds since the Unix epoch to
/// `(year, month, day, hour, minute, second)` UTC, without leap seconds.
pub fn secs_to_utc(secs: u64) -> (t: (u64, u64, u64, u64, u64, u64))
    ensures
        t.0 as int == spec_secs_to_utc(secs as nat).0,
        t.1 as int == spec_secs_to_utc(secs as nat).1,
        t.2 as int == spec_secs_to_utc(secs as nat).2,
        t.3 as int == spec_secs_to_utc(secs as nat).3,
        t.4 as int == spec_secs_to_utc(secs as nat).4,
        t.5 as int == spec_secs_to_utc(secs as nat).5,
        1 <= t.1 <= 12,
        1 <= t.2 <= month_days(t.0 as int, t.1 as int),
        t.3 < 24 && t.4 < 60 && t.5 < 60,
        days_from_date(t.0 as int, t.1 as int, t.2 as int) * 86400 + t.3 * 3600 + t.4 * 60 + t.5
            == secs,
{
    let sec = secs % 60;
    let min = (secs / 60) % 60;
    let hour = (secs / 3600) % 24;
    let (year, month, day) = civil_from_days(secs / 86400);
    proof {
        lemma_days_to_date_roundtrip((secs / 86400) as nat);
        let days = secs / 86400;
        assert(days * 86400 + hour * 3600 + min * 60 + sec == secs) by (nonlinear_arith)
            requires
                days == secs / 86400,
                hour == (secs / 3600) % 24,
                min == (secs / 60) % 60,
                sec == secs % 60,
        ;
    }
    (year, month, day, hour, min, sec)
}

// ---------------------------------------------------------------------------
// ISO-8601
// ---------------------------------------------------------------------------

/// `YYYY-MM-DDTHH:MM:SSZ` (or, compact, `YYYY-MM-DDTHHMMSSZ`) for a Unix
/// time, each field zero-padded.
pub open spec fn spec_iso8601(secs: nat, compact: bool) -> Seq<char> {
    let (y, m, d, h, mi, s) = spec_secs_to_utc(secs);
    let sep: Seq<char> = if compact {
        Seq::empty()
    } else {
        seq![':']
    };
    dec_padded(y as nat, 4) + seq!['-'] + dec_padded(m as nat, 2) + seq!['-'] + dec_padded(
        d as nat,
        2,
    ) + seq!['T'] + dec_padded(h as nat, 2) + sep + dec_padded(mi as nat, 2) + sep + dec_padded(
        s as nat,
        2,
    ) + seq!['Z']
}

fn iso8601_chars(secs: u64, compact: bool) -> (s: Vec<char>)
    ensures
        s@ == spec_iso8601(secs as nat, compact),
{
    let (year, month, day, hour, min, sec) = secs_to_utc(secs);
    let mut out: Vec<char> = Vec::new();
    push_dec_padded(&mut out, year, 4);
    out.push('-');
    push_dec_padded(&mut out, month, 2);
    out.push('-');
    push_dec_padded(&mut out, day, 2);
    out.push('T');
    push_dec_padded(&mut out, hour, 2);
    if !compact {
        out.push(':');
    }
    push_dec_padded(&mut out, min, 2);
    if !compact {
        out.push(':');
    }
    push_dec_padded(&mut out, sec, 2);
    out.push('Z');
    assert(out@ =~= spec_iso8601(secs as nat, compact));
    out
}

/// Format seconds since the Unix epoch as a full ISO-8601 timestamp, e.g.
/// `2026-02-15T01:30:00Z`.
pub fn format_iso8601(secs: u64) -> (s: String)
    ensures
        s@ == spec_iso8601(secs as nat, false),
{
    string_from_chars(&iso8601_chars(secs, false))
}

/// Format seconds since the Unix epoch as a compact ISO-8601 timestamp for
/// directory names, e.g. `2026-02-15T013000Z`.
pub fn format_iso8601_compact(secs: u64) -> (s: String)
    ensures
        s@ == spec_iso8601(secs as nat, true),
{
    string_from_chars(&iso8601_chars(secs, true))
}

// ---------------------------------------------------------------------------
// Hex
// ---------------------------------------------------------------------------

/// Lowercase hex of a byte string, two digits per byte, no separator.
pub open spec fn spec_hex(bytes: Seq<u8>) -> Seq<char>
    decreases bytes.len(),
{
    if bytes.len() == 0 {
        Seq::empty()
    } else {
        spec_hex(bytes.drop_last()) + hex_byte(bytes.last())
    }
}

/// Hex-encode bytes without any separator.
pub fn hex_encode(bytes: &[u8]) -> (s: String)
    ensures
        s@ == spec_hex(bytes@),
        s@.len() == 2 * bytes@.len(),
{
    let mut out: Vec<char> = Vec::new();
    let mut i: usize = 0;
    while i < bytes.len()
        invariant
            i <= bytes@.len(),
            out@ == spec_hex(bytes@.subrange(0, i as int)),
            out@.len() == 2 * i,
        decreases bytes@.len() - i,
    {
        let b = bytes[i];
        out.push(crate::text::hex_char_of((b / 16) as u64));
        out.push(crate::text::hex_char_of((b % 16) as u64));
        let ghost pre = bytes@.subrange(0, i + 1);
        assert(pre.drop_last() =~= bytes@.subrange(0, i as int));
        i = i + 1;
        assert(out@ =~= spec_hex(bytes@.subrange(0, i as int)));
    }
    assert(bytes@.subrange(0, bytes@.len() as int) =~= bytes@);
    string_from_chars(&out)
}

// ---------------------------------------------------------------------------
// Machine info, metadata and configuration
// ---------------------------------------------------------------------------

/// `line` without one trailing carriage return.
pub open spec fn strip_cr(line: Seq<char>) -> Seq<char> {
    if line.len() > 0 && line.last() == '\r' {
        line.drop_last()
    } else {
        line
    }
}

/// Scan the first `k` characters of `text`: the lines already ended by
/// `\n` (each without its `\r\n` or `\n`), and the line still open.
pub open spec fn scan_lines(text: Seq<char>, k: nat) -> (Seq<Seq<char>>, Seq<char>)
    decreases k,
{
    if k == 0 {
        (Seq::empty(), Seq::empty())
    } else {
        let (done, cur) = scan_lines(text, (k - 1) as nat);
        if text[k - 1] == '\n' {
            (done.push(strip_cr(cur)), Seq::empty())
        } else {
            (done, cur.push(text[k - 1]))
        }
    }
}

/// The lines of a text as `str::lines` gives them: split at `\n` or
/// `\r\n`, with no empty line after a final line ending.
pub open spec fn spec_lines(text: Seq<char>) -> Seq<Seq<char>> {
    let (done, cur) = scan_lines(text, text.len());
    if cur.len() > 0 {
        done.push(cur)
    } else {
        done
    }
}

/// The first of `lines` that starts with `prefix`.
pub open spec fn first_with_prefix(lines: Seq<Seq<char>>, prefix: Seq<char>) -> Option<Seq<char>>
    decreases lines.len(),
{
    if lines.len() == 0 {
        None
    } else if prefix.is_prefix_of(lines[0]) {
        Some(lines[0])
    } else {
        first_with_prefix(lines.drop_first(), prefix)
    }
}

/// `line` with every leading repetition of `prefix` removed (`prefix` not
/// empty).
pub open spec fn strip_prefix_all(line: Seq<char>, prefix: Seq<char>) -> Seq<char>
    decreases line.len(),
{
    if prefix.len() > 0 && prefix.is_prefix_of(line) {
        strip_prefix_all(line.skip(prefix.len() as int), prefix)
    } else {
        line
    }
}

/// `s` without its leading and trailing `c` characters.
pub open spec fn trim_char(s: Seq<char>, c: char) -> Seq<char>
    decreases s.len(),
{
    if s.len() > 0 && s[0] == c {
        trim_char(s.drop_first(), c)
    } else if s.len() > 0 && s.last() == c {
        trim_char(s.drop_last(), c)
    } else {
        s
    }
}

/// Position of the first `c` in `s`, or -1 when `s` has none.
pub open spec fn index_of(s: Seq<char>, c: char) -> int
    decreases s.len(),
{
    if s.len() == 0 {
        -1
    } else if s[0] == c {
        0
    } else {
        let r = index_of(s.drop_first(), c);
        if r < 0 {
            -1
        } else {
            r + 1
        }
    }
}

/// The field after the first `:` of `line`, up to the next `:` (empty when
/// the line has no `:`), as `split(':').nth(1)` gives it.
pub open spec fn second_field(line: Seq<char>) -> Seq<char> {
    let i = index_of(line, ':');
    if i < 0 {
        Seq::empty()
    } else {
        let rest = line.skip(i + 1);
        let e = index_of(rest, ':');
        if e < 0 {
            rest
        } else {
            rest.take(e)
        }
    }
}

pub(crate) proof fn lemma_index_of(s: Seq<char>, c: char, k: int)
    requires
        0 <= k <= s.len(),
        forall|j: int| 0 <= j < k ==> s[j] != c,
        k == s.len() || s[k] == c,
    ensures
        index_of(s, c) == if k == s.len() {
            -1
        } else {
            k
        },
    decreases s.len(),
{
    if s.len() > 0 && k > 0 {
        assert forall|j: int| 0 <= j < k - 1 implies s.drop_first()[j] != c by {
            assert(s.drop_first()[j] == s[j + 1]);
        }
        if k < s.len() {
            assert(s.drop_first()[k - 1] == s[k]);
        }
        lemma_index_of(s.drop_first(), c, k - 1);
    }
}

/// Position of the first `c` in `s` from `from` on, or `s.len()`.
pub(crate) fn find_char_from(s: &Vec<char>, c: char, from: usize) -> (k: usize)
    requires
        from <= s@.len(),
    ensures
        from <= k <= s@.len(),
        forall|j: int| from <= j < k ==> s@[j] != c,
        k == s@.len() || s@[k as int] == c,
{
    let mut k = from;
    while k < s.len() && s[k] != c
        invariant
            from <= k <= s@.len(),
            forall|j: int| from <= j < k ==> s@[j] != c,
        decreases s@.len() - k,
    {
        k = k + 1;
    }
    k
}

/// The views of a list of character vectors.
pub open spec fn char_rows(v: Seq<Vec<char>>) -> Seq<Seq<char>> {
    Seq::new(v.len(), |i: int| v[i]@)
}

/// The lines of a text.
fn text_lines(text: &str) -> (lines: Vec<Vec<char>>)
    ensures
        char_rows(lines@) == spec_lines(text@),
{
    let chars = str_to_chars(text);
    let mut done: Vec<Vec<char>> = Vec::new();
    let mut cur: Vec<char> = Vec::new();
    let mut k: usize = 0;
    while k < chars.len()
        invariant
            chars@ == text@,
            k <= chars@.len(),
            char_rows(done@) == scan_lines(text@, k as nat).0,
            cur@ == scan_lines(text@, k as nat).1,
        decreases chars@.len() - k,
    {
        if chars[k] == '\n' {
            let ghost before = done@;
            let ghost c0 = cur@;
            if cur.len() > 0 && cur[cur.len() - 1] == '\r' {
                cur.pop();
            }
            assert(cur@ =~= strip_cr(c0));
            done.push(cur);
            cur = Vec::new();
            assert(char_rows(done@) =~= char_rows(before).push(strip_cr(c0)));
        } else {
            cur.push(chars[k]);
        }
        k = k + 1;
    }
    if cur.len() > 0 {
        let ghost before = done@;
        let ghost c0 = cur@;
        done.push(cur);
        assert(char_rows(done@) =~= char_rows(before).push(c0));
    }
    done
}

/// Whether `prefix` starts `line`.
fn starts_with(line: &Vec<char>, prefix: &Vec<char>) -> (b: bool)
    ensures
        b == prefix@.is_prefix_of(line@),
{
    if prefix.len() > line.len() {
        return false;
    }
    let mut k: usize = 0;
    while k < prefix.len()
        invariant
            prefix@.len() <= line@.len(),
            k <= prefix@.len(),
            forall|j: int| 0 <= j < k ==> prefix@[j] == line@[j],
        decreases prefix@.len() - k,
    {
        if prefix[k] != line[k] {
            return false;
        }
        k = k + 1;
    }
    true
}

/// The first line of `text` that starts with `prefix`.
fn find_line(text: &str, prefix: &str) -> (found: Option<Vec<char>>)
    ensures
        match found {
            Some(l) => first_with_prefix(spec_lines(text@), prefix@) == Some(l@),
            None => first_with_prefix(spec_lines(text@), prefix@) is None,
        },
{
    let lines = text_lines(text);
    let p = str_to_chars(prefix);
    let ghost all = spec_lines(text@);
    assert(all.skip(0) =~= all);
    let mut i: usize = 0;
    while i < lines.len()
        invariant
            all == spec_lines(text@),
            char_rows(lines@) == all,
            p@ == prefix@,
            i <= all.len(),
            first_with_prefix(all, prefix@) == first_with_prefix(all.skip(i as int), prefix@),
        decreases all.len() - i,
    {
        assert(lines@[i as int]@ == all[i as int]);
        assert(all.skip(i as int)[0] == all[i as int]);
        assert(all.skip(i as int).drop_first() =~= all.skip(i + 1));
        if starts_with(&lines[i], &p) {
            let l = vstd::slice::slice_to_vec(lines[i].as_slice());
            assert(l@ == all[i as int]);
            assert(prefix@.is_prefix_of(all.skip(i as int)[0]));
            assert(first_with_prefix(all.skip(i as int), prefix@) == Some(all.skip(i as int)[0]));
            return Some(l);
        }
        i = i + 1;
    }
    assert(all.skip(i as int) =~= Seq::<Seq<char>>::empty());
    None
}

/// The `PRETTY_NAME` of an `/etc/os-release` text: the first line starting
/// with `PRETTY_NAME=`, without that prefix (however often repeated) and
/// without surrounding double quotes.
pub open spec fn spec_pretty_name(text: Seq<char>) -> Option<Seq<char>> {
    match first_with_prefix(spec_lines(text), "PRETTY_NAME="@) {
        Some(l) => Some(trim_char(strip_prefix_all(l, "PRETTY_NAME="@), '"')),
        None => None,
    }
}

/// The operating system's pretty name from the text of `/etc/os-release`.
pub fn os_release_pretty_name(text: &str) -> (name: Option<String>)
    ensures
        match name {
            Some(n) => spec_pretty_name(text@) == Some(n@),
            None => spec_pretty_name(text@) is None,
        },
{
    let key = "PRETTY_NAME=";
    match find_line(text, key) {
        None => None,
        Some(line) => {
            let p = str_to_chars(key);
            proof {
                reveal_strlit("PRETTY_NAME=");
            }
            // drop every leading copy of the prefix
            assert(line@.skip(0) =~= line@);
            let mut a: usize = 0;
            while line.len() - a >= p.len() && starts_with_at(&line, &p, a)
                invariant
                    p@ == key@,
                    p@.len() == 12,
                    a <= line@.len(),
                    strip_prefix_all(line@, key@) == strip_prefix_all(line@.skip(a as int), key@),
                decreases line@.len() - a,
            {
                let ghost rest = line@.skip(a as int);
                assert(key@.is_prefix_of(rest));
                assert(rest.skip(12) =~= line@.skip(a + 12));
                a = a + p.len();
            }
            let ghost rest = line@.skip(a as int);
            assert(strip_prefix_all(rest, key@) == rest) by {
                if key@.is_prefix_of(rest) {
                    assert(rest.len() >= 12);
                }
            }
            // drop surrounding double quotes
            let mut lo: usize = a;
            let mut hi: usize = line.len();
            while lo < hi && (line[lo] == '"' || line[hi - 1] == '"')
                invariant
                    a <= lo <= hi <= line@.len(),
                    trim_char(rest, '"') == trim_char(line@.subrange(lo as int, hi as int), '"'),
                decreases hi - lo,
            {
                let ghost cur = line@.subrange(lo as int, hi as int);
                if line[lo] == '"' {
                    assert(cur.drop_first() =~= line@.subrange(lo + 1, hi as int));
                    lo = lo + 1;
                } else {
                    assert(cur.drop_last() =~= line@.subrange(lo as int, hi - 1));
                    hi = hi - 1;
                }
            }
            proof {
                assert(rest =~= line@.subrange(a as int, line@.len() as int));
            }
            let mut out: Vec<char> = Vec::new();
            let mut k: usize = lo;
            while k < hi
                invariant
                    lo <= k <= hi,
                    hi <= line@.len(),
                    out@ == line@.subrange(lo as int, k as int),
                decreases hi - k,
            {
                out.push(line[k]);
                k = k + 1;
                assert(out@ =~= line@.subrange(lo as int, k as int));
            }
            Some(string_from_chars(&out))
        },
    }
}

/// The CPU model of a `/proc/cpuinfo` text: the first line starting with
/// `model name`, its field after the first `:`, trimmed.
pub open spec fn spec_cpu_model(text: Seq<char>) -> Option<Seq<char>> {
    match first_with_prefix(spec_lines(text), "model name"@) {
        Some(l) => Some(spec_str_trim(second_field(l))),
        None => None,
    }
}

/// The CPU model name from the text of `/proc/cpuinfo`.
pub fn cpuinfo_model_name(text: &str) -> (name: Option<String>)
    ensures
        match name {
            Some(n) => spec_cpu_model(text@) == Some(n@),
            None => spec_cpu_model(text@) is None,
        },
{
    match find_line(text, "model name") {
        None => None,
        Some(line) => {
            let i = find_char_from(&line, ':', 0);
            let mut field: Vec<char> = Vec::new();
            proof {
                lemma_index_of(line@, ':', i as int);
            }
            if i < line.len() {
                let e = find_char_from(&line, ':', i + 1);
                proof {
                    let rest = line@.skip(i + 1);
                    assert forall|j: int| 0 <= j < e - (i + 1) implies rest[j] != ':' by {
                        assert(rest[j] == line@[i + 1 + j]);
                    }
                    if e < line@.len() {
                        assert(rest[e - (i + 1)] == line@[e as int]);
                    }
                    lemma_index_of(rest, ':', e - (i + 1));
                }
                let mut k: usize = i + 1;
                while k < e
                    invariant
                        i + 1 <= k <= e,
                        e <= line@.len(),
                        field@ == line@.subrange(i + 1, k as int),
                    decreases e - k,
                {
                    field.push(line[k]);
                    k = k + 1;
                    assert(field@ =~= line@.subrange(i + 1, k as int));
                }
                proof {
                    let rest = line@.skip(i + 1);
                    if e < line@.len() {
                        assert(field@ =~= rest.take(e - (i + 1)));
                    } else {
                        assert(field@ =~= rest);
                    }
                }
            } else {
                assert(field@ =~= Seq::<char>::empty());
            }
            let field_text = string_from_chars(&field);
            let trimmed = str_trim(field_text.as_str());
            Some(String::from_str(trimmed))
        },
    }
}

/// The OS version that `sw_vers -productVersion` printed, trimmed.
pub fn sw_vers_version(output: &str) -> (version: String)
    ensures
        version@ == spec_str_trim(output@),
{
    String::from_str(str_trim(output))
}

/// The chip name that `sysctl -n machdep.cpu.brand_string` printed,
/// trimmed; `None` when nothing is left.
pub fn sysctl_brand_string(output: &str) -> (chip: Option<String>)
    ensures
        match chip {
            Some(c) => spec_str_trim(output@).len() > 0 && c@ == spec_str_trim(output@),
            None => spec_str_trim(output@).len() == 0,
        },
{
    let trimmed = str_trim(output);
    if trimmed.is_empty() {
        None
    } else {
        Some(String::from_str(trimmed))
    }
}

/// Whether `prefix` occurs in `line` at position `at`.
pub(crate) fn starts_with_at(line: &Vec<char>, prefix: &Vec<char>, at: usize) -> (b: bool)
    requires
        at + prefix@.len() <= line@.len(),
    ensures
        b == prefix@.is_prefix_of(line@.skip(at as int)),
{
    let n = line.len();
    let mut k: usize = 0;
    while k < prefix.len()
        invariant
            n == line@.len(),
            at + prefix@.len() <= line@.len(),
            k <= prefix@.len(),
            forall|j: int| 0 <= j < k ==> prefix@[j] == line@[at + j],
        decreases prefix@.len() - k,
    {
        if prefix[k] != line[at + k] {
            assert(line@.skip(at as int)[k as int] == line@[at + k]);
            return false;
        }
        k = k + 1;
    }
    assert forall|j: int| 0 <= j < prefix@.len() implies prefix@[j] == line@.skip(at as int)[j] by {}
    true
}


/// Machine information captured at session start.
#[derive(Debug, Clone)]
pub struct MachineInfo {
    pub os: String,
    pub arch: String,
    pub chip: String,
    pub cores: usize,
}

/// Session metadata written to `session.json` at the end of recording.
#[derive(Debug, Clone)]
pub struct SessionMeta {
    pub version: u32,
    pub id: String,
    pub started_at: String,
    pub ended_at: String,
    pub duration_ms: u64,
    pub sources: Vec<String>,
    pub conditioning: String,
    pub interval_ms: Option<u64>,
    pub total_samples: u64,
    pub samples_per_source: Vec<(String, u64)>,
    pub machine: MachineInfo,
    pub tags: Vec<(String, String)>,
    pub note: Option<String>,
    pub openentropy_version: String,
}

/// Configuration for a recording session.
#[derive(Debug, Clone)]
pub struct SessionConfig {
    pub sources: Vec<String>,
    pub conditioning: ConditioningMode,
    /// Interval between samples, in milliseconds.
    pub interval_ms: Option<u64>,
    pub output_dir: String,
    pub tags: Vec<(String, String)>,
    pub note: Option<String>,
    /// Recording duration, in milliseconds.
    pub duration_ms: Option<u64>,
    pub sample_size: usize,
}

impl Default for SessionConfig {
    fn default() -> (c: Self)
        ensures
            c.sources@.len() == 0,
            c.conditioning == ConditioningMode::Raw,
            c.interval_ms is None,
            c.output_dir@ == "sessions"@,
            c.tags@.len() == 0,
            c.note is None,
            c.duration_ms is None,
            c.sample_size == 1000,
    {
        SessionConfig {
            sources: Vec::new(),
            conditioning: ConditioningMode::Raw,
            interval_ms: None,
            output_dir: String::from_str("sessions"),
            tags: Vec::new(),
            note: None,
            duration_ms: None,
            sample_size: 1000,
        }
    }
}

// ---------------------------------------------------------------------------
// Sample bookkeeping
// ---------------------------------------------------------------------------

/// The sample count of source `name` (0 when it has none).
pub open spec fn count_of(v: Seq<(String, u64)>, name: Seq<char>) -> nat
    decreases v.len(),
{
    if v.len() == 0 {
        0
    } else {
        let rest = count_of(v.drop_last(), name);
        if v.last().0@ == name {
            v.last().1 as nat
        } else {
            rest
        }
    }
}

/// Sum of all sample counts.
pub open spec fn count_total(v: Seq<(String, u64)>) -> nat
    decreases v.len(),
{
    if v.len() == 0 {
        0
    } else {
        count_total(v.drop_last()) + v.last().1 as nat
    }
}

/// Some entry of `v` counts source `name`.
pub open spec fn counts_name(v: Seq<(String, u64)>, name: Seq<char>) -> bool {
    exists|j: int| 0 <= j < v.len() && #[trigger] v[j].0@ == name
}

/// The names of the counted sources, in order.
pub open spec fn count_names(v: Seq<(String, u64)>) -> Seq<Seq<char>> {
    Seq::new(v.len(), |i: int| v[i].0@)
}

/// The distinct names among the first `k` of `names`, in order of first
/// appearance.
pub open spec fn first_appearances(names: Seq<String>, k: nat) -> Seq<Seq<char>>
    decreases k,
{
    if k == 0 {
        Seq::empty()
    } else {
        let d = first_appearances(names, (k - 1) as nat);
        if d.contains(names[k - 1]@) {
            d
        } else {
            d.push(names[k - 1]@)
        }
    }
}

/// `name` is one of `names`.
pub open spec fn names_contain(names: Seq<String>, name: Seq<char>) -> bool {
    exists|k: int| 0 <= k < names.len() && #[trigger] names[k]@ == name
}

/// No source name is counted twice.
pub open spec fn names_distinct(v: Seq<(String, u64)>) -> bool {
    forall|i: int, j: int| 0 <= i < v.len() && 0 <= j < v.len() && i != j ==> v[i].0@ != v[j].0@
}

/// Bookkeeping of a recording session: the byte offset of the next sample
/// in `raw.bin`, the number of samples recorded, and per-source counts.
pub struct SessionLog {
    raw_offset: u64,
    total_samples: u64,
    counts: Vec<(String, u64)>,
}

impl SessionLog {
    /// Well-formed: each source counted once, and the per-source counts add
    /// up to the number of samples.
    pub closed spec fn wf(&self) -> bool {
        &&& names_distinct(self.counts@)
        &&& count_total(self.counts@) == self.total_samples
    }

    /// Byte offset of the next sample in the raw file.
    pub closed spec fn spec_raw_offset(&self) -> u64 {
        self.raw_offset
    }

    /// Samples recorded so far.
    pub closed spec fn spec_total(&self) -> u64 {
        self.total_samples
    }

    /// The per-source counts, in order of first appearance.
    pub closed spec fn spec_counts(&self) -> Seq<(String, u64)> {
        self.counts@
    }

    /// In a well-formed log the per-source counts add up to the number of
    /// samples recorded.
    pub proof fn lemma_counts_add_up(&self)
        requires
            self.wf(),
        ensures
            count_total(self.spec_counts()) == self.spec_total(),
            names_distinct(self.spec_counts()),
    {
    }

    /// A fresh log for the configured sources, each counted once with no
    /// samples.
    pub fn new(sources: &[String]) -> (log: Self)
        ensures
            log.wf(),
            log.spec_raw_offset() == 0,
            log.spec_total() == 0,
            forall|k: int| 0 <= k < sources@.len() ==> counts_name(log.spec_counts(), #[trigger] sources@[k]@),
            forall|j: int| 0 <= j < log.spec_counts().len() ==> #[trigger] log.spec_counts()[j].1 == 0,
            forall|j: int| 0 <= j < log.spec_counts().len() ==> names_contain(sources@, #[trigger] log.spec_counts()[j].0@),
            count_names(log.spec_counts()) == first_appearances(sources@, sources@.len()),
    {
        let mut counts: Vec<(String, u64)> = Vec::new();
        let mut i: usize = 0;
        while i < sources.len()
            invariant
                i <= sources@.len(),
                names_distinct(counts@),
                count_total(counts@) == 0,
                forall|j: int| 0 <= j < counts@.len() ==> #[trigger] counts@[j].1 == 0,
                forall|k: int| 0 <= k < i ==> counts_name(counts@, #[trigger] sources@[k]@),
                forall|j: int| 0 <= j < counts@.len() ==> names_contain(sources@, #[trigger] counts@[j].0@),
                count_names(counts@) == first_appearances(sources@, i as nat),
            decreases sources@.len() - i,
        {
            let found = find_source(&counts, sources[i].as_str());
            let ghost names_before = count_names(counts@);
            proof {
                if found.is_none() {
                    assert(!names_before.contains(sources@[i as int]@));
                } else {
                    let j = found.unwrap() as int;
                    assert(names_before[j] == sources@[i as int]@);
                }
            }
            if found.is_none() {
                let ghost before = counts@;
                counts.push((sources[i].clone(), 0));
                proof {
                    assert(counts@.drop_last() =~= before);
                    assert(count_names(counts@) =~= names_before.push(sources@[i as int]@));
                    assert forall|k: int| 0 <= k < i + 1 implies counts_name(counts@, #[trigger] sources@[k]@) by {
                        if k < i {
                            let j = choose|j: int| 0 <= j < before.len() && #[trigger] before[j].0@ == sources@[k]@;
                            assert(counts@[j] == before[j]);
                        } else {
                            assert(counts@[before.len() as int].0@ == sources@[k]@);
                        }
                    }
                    assert forall|j: int| 0 <= j < counts@.len() implies names_contain(sources@, #[trigger] counts@[j].0@) by {
                        if j < before.len() {
                            assert(counts@[j] == before[j]);
                        } else {
                            assert(counts@[j].0@ == sources@[i as int]@);
                        }
                    }
                }
            } else {
                proof {
                    let j = found.unwrap() as int;
                    assert(counts@[j].0@ == sources@[i as int]@);
                }
            }
            i = i + 1;
        }
        let log = SessionLog { raw_offset: 0, total_samples: 0, counts };
        assert(log.spec_counts() == counts@);
        log
    }

    /// Record one sample of `len` bytes from `source`; returns the sample's
    /// byte offset in the raw file. The offset advances by `len`, the total
    /// and the source's count by one (a new source enters with count one),
    /// every other count stays.
    pub fn record_sample(&mut self, source: &str, len: usize) -> (offset: u64)
        requires
            old(self).wf(),
            old(self).spec_raw_offset() + len <= u64::MAX,
            old(self).spec_total() < u64::MAX,
        ensures
            final(self).wf(),
            offset == old(self).spec_raw_offset(),
            final(self).spec_raw_offset() == old(self).spec_raw_offset() + len,
            final(self).spec_total() == old(self).spec_total() + 1,
            count_of(final(self).spec_counts(), source@) == count_of(old(self).spec_counts(), source@) + 1,
            forall|n: Seq<char>| n != source@ ==> count_of(final(self).spec_counts(), n) == count_of(
                old(self).spec_counts(),
                n,
            ),
            count_names(final(self).spec_counts()) == if count_names(old(self).spec_counts()).contains(
                source@,
            ) {
                count_names(old(self).spec_counts())
            } else {
                count_names(old(self).spec_counts()).push(source@)
            },
    {
        let offset = self.raw_offset;
        self.raw_offset = self.raw_offset + len as u64;
        self.total_samples = self.total_samples + 1;
        let found = find_source(&self.counts, source);
        let ghost before = self.counts@;
        proof {
            lemma_count_of_le_total(before, source@);
        }
        match found {
            Some(j) => {
                proof {
                    lemma_count_of_at(before, j as int);
                }
                let c = self.counts[j].1;
                let name = self.counts[j].0.clone();
                self.counts.set(j, (name, c + 1));
                proof {
                    lemma_update_count(before, j as int, source@);
                    assert(self.counts@ == before.update(j as int, (before[j as int].0, (before[j as int].1 + 1) as u64)));
                    assert(count_names(before)[j as int] == source@);
                    assert(count_names(self.counts@) =~= count_names(before));
                }
            },
            None => {
                self.counts.push((String::from_str(source), 1));
                proof {
                    assert(self.counts@.drop_last() =~= before);
                    assert(!count_names(before).contains(source@));
                    assert(count_names(self.counts@) =~= count_names(before).push(source@));
                    lemma_count_of_absent(before, source@);
                    assert forall|i: int, k: int|
                        0 <= i < self.counts@.len() && 0 <= k < self.counts@.len() && i != k implies self.counts@[i].0@
                        != self.counts@[k].0@ by {
                        if i < before.len() && k < before.len() {
                            assert(self.counts@[i] == before[i] && self.counts@[k] == before[k]);
                        } else if i < before.len() {
                            assert(self.counts@[i] == before[i]);
                        } else {
                            assert(self.counts@[k] == before[k]);
                        }
                    }
                }
            },
        }
        offset
    }

    /// Samples recorded so far.
    pub fn total_samples(&self) -> (n: u64)
        ensures
            n == self.spec_total(),
    {
        self.total_samples
    }

    /// Byte offset of the next sample in the raw file.
    pub fn raw_offset(&self) -> (n: u64)
        ensures
            n == self.spec_raw_offset(),
    {
        self.raw_offset
    }

    /// The sample count of a source (0 when it has none).
    pub fn samples_of(&self, source: &str) -> (n: u64)
        requires
            self.wf(),
        ensures
            n == count_of(self.spec_counts(), source@),
    {
        match find_source(&self.counts, source) {
            Some(j) => {
                proof {
                    lemma_count_of_at(self.counts@, j as int);
                }
                self.counts[j].1
            },
            None => {
                proof {
                    lemma_count_of_absent(self.counts@, source@);
                }
                0
            },
        }
    }

    /// The metadata of a finished session: format version 1, the session
    /// id, start and end times (ISO-8601), the duration, the configured
    /// sources, conditioning, interval, tags and note, the sample counts of
    /// this log, the machine and the library version.
    pub fn session_meta(
        self,
        config: SessionConfig,
        id: String,
        started_secs: u64,
        ended_secs: u64,
        duration_ms: u64,
        machine: MachineInfo,
        version: String,
    ) -> (m: SessionMeta)
        ensures
            m.version == 1,
            m.id == id,
            m.started_at@ == spec_iso8601(started_secs as nat, false),
            m.ended_at@ == spec_iso8601(ended_secs as nat, false),
            m.duration_ms == duration_ms,
            m.sources == config.sources,
            m.conditioning@ == spec_mode_name(config.conditioning),
            m.interval_ms == config.interval_ms,
            m.total_samples == self.spec_total(),
            m.samples_per_source@ == self.spec_counts(),
            m.machine == machine,
            m.tags == config.tags,
            m.note == config.note,
            m.openentropy_version == version,
    {
        SessionMeta {
            version: 1,
            id,
            started_at: format_iso8601(started_secs),
            ended_at: format_iso8601(ended_secs),
            duration_ms,
            conditioning: config.conditioning.to_string(),
            sources: config.sources,
            interval_ms: config.interval_ms,
            total_samples: self.total_samples,
            samples_per_source: self.counts,
            machine,
            tags: config.tags,
            note: config.note,
            openentropy_version: version,
        }
    }

    /// The per-source counts, in order of first appearance.
    pub fn samples_per_source(&self) -> (v: Vec<(String, u64)>)
        ensures
            v@.len() == self.spec_counts().len(),
            forall|j: int| 0 <= j < v@.len() ==> #[trigger] v@[j].0@ == self.spec_counts()[j].0@
                && v@[j].1 == self.spec_counts()[j].1,
    {
        let mut out: Vec<(String, u64)> = Vec::new();
        let mut j: usize = 0;
        while j < self.counts.len()
            invariant
                j <= self.counts@.len(),
                out@.len() == j,
                forall|k: int| 0 <= k < j ==> #[trigger] out@[k].0@ == self.counts@[k].0@
                    && out@[k].1 == self.counts@[k].1,
            decreases self.counts@.len() - j,
        {
            let ghost before = out@;
            out.push((self.counts[j].0.clone(), self.counts[j].1));
            proof {
                assert forall|k: int| 0 <= k < j + 1 implies #[trigger] out@[k].0@ == self.counts@[k].0@
                    && out@[k].1 == self.counts@[k].1 by {
                    if k < j {
                        assert(out@[k] == before[k]);
                    }
                }
            }
            j = j + 1;
        }
        out
    }
}

/// Position of `source` among the counted names.
fn find_source(counts: &Vec<(String, u64)>, source: &str) -> (found: Option<usize>)
    ensures
        match found {
            Some(j) => j < counts@.len() && counts@[j as int].0@ == source@,
            None => forall|j: int| 0 <= j < counts@.len() ==> #[trigger] counts@[j].0@ != source@,
        },
{
    let mut j: usize = 0;
    while j < counts.len()
        invariant
            j <= counts@.len(),
            forall|k: int| 0 <= k < j ==> #[trigger] counts@[k].0@ != source@,
        decreases counts@.len() - j,
    {
        if str_eq(counts[j].0.as_str(), source) {
            return Some(j);
        }
        j = j + 1;
    }
    None
}

proof fn lemma_count_of_absent(v: Seq<(String, u64)>, name: Seq<char>)
    requires
        forall|j: int| 0 <= j < v.len() ==> #[trigger] v[j].0@ != name,
    ensures
        count_of(v, name) == 0,
    decreases v.len(),
{
    if v.len() > 0 {
        assert forall|j: int| 0 <= j < v.drop_last().len() implies #[trigger] v.drop_last()[j].0@
            != name by {
            assert(v.drop_last()[j] == v[j]);
        }
        lemma_count_of_absent(v.drop_last(), name);
        assert(v[v.len() - 1].0@ != name);
    }
}

proof fn lemma_count_of_at(v: Seq<(String, u64)>, j: int)
    requires
        names_distinct(v),
        0 <= j < v.len(),
    ensures
        count_of(v, v[j].0@) == v[j].1,
    decreases v.len(),
{
    if j < v.len() - 1 {
        let d = v.drop_last();
        assert(d[j] == v[j]);
        assert(names_distinct(d)) by {
            assert forall|a: int, b: int| 0 <= a < d.len() && 0 <= b < d.len() && a != b implies d[a].0@
                != d[b].0@ by {
                assert(d[a] == v[a] && d[b] == v[b]);
            }
        }
        lemma_count_of_at(d, j);
        assert(v[v.len() - 1].0@ != v[j].0@);
    }
}

proof fn lemma_count_of_le_total(v: Seq<(String, u64)>, name: Seq<char>)
    ensures
        count_of(v, name) <= count_total(v),
    decreases v.len(),
{
    if v.len() > 0 {
        lemma_count_of_le_total(v.drop_last(), name);
    }
}

/// Raising the count at `j` by one raises that source's count and the
/// total by one and keeps the names.
proof fn lemma_update_count(v: Seq<(String, u64)>, j: int, name: Seq<char>)
    requires
        names_distinct(v),
        0 <= j < v.len(),
        v[j].0@ == name,
        v[j].1 < u64::MAX,
    ensures
        ({
            let w = v.update(j, (v[j].0, (v[j].1 + 1) as u64));
            &&& names_distinct(w)
            &&& count_total(w) == count_total(v) + 1
            &&& count_of(w, name) == count_of(v, name) + 1
            &&& forall|n: Seq<char>| n != name ==> count_of(w, n) == count_of(v, n)
        }),
    decreases v.len(),
{
    let w = v.update(j, (v[j].0, (v[j].1 + 1) as u64));
    assert forall|a: int, b: int| 0 <= a < w.len() && 0 <= b < w.len() && a != b implies w[a].0@
        != w[b].0@ by {}
    if j == v.len() - 1 {
        assert(w.drop_last() =~= v.drop_last());
        lemma_count_of_at(v, j);
        assert(w.last().0@ == name && v.last().0@ == name);
        assert forall|n: Seq<char>| n != name implies count_of(w, n) == count_of(v, n) by {
            assert(count_of(w, n) == count_of(w.drop_last(), n));
            assert(count_of(v, n) == count_of(v.drop_last(), n));
        }
    } else {
        let d = v.drop_last();
        assert(names_distinct(d)) by {
            assert forall|a: int, b: int| 0 <= a < d.len() && 0 <= b < d.len() && a != b implies d[a].0@
                != d[b].0@ by {
                assert(d[a] == v[a] && d[b] == v[b]);
            }
        }
        assert(d[j] == v[j]);
        lemma_update_count(d, j, name);
        assert(w.drop_last() =~= d.update(j, (d[j].0, (d[j].1 + 1) as u64)));
        assert(v[v.len() - 1].0@ != name);
        assert(w.last() == v.last());
        let dw = d.update(j, (d[j].0, (d[j].1 + 1) as u64));
        assert forall|n: Seq<char>| n != name implies count_of(w, n) == count_of(v, n) by {
            assert(count_of(dw, n) == count_of(d, n));
        }
    }
}

// ---------------------------------------------------------------------------
// Text rows and names
// ---------------------------------------------------------------------------

/// A row of `raw_index.csv`: `offset,length,timestamp_ns,source`.
pub open spec fn spec_index_row(offset: u64, len: u64, timestamp_ns: u64, source: Seq<char>) -> Seq<
    char,
> {
    dec_digits(offset as nat) + seq![','] + dec_digits(len as nat) + seq![','] + dec_digits(
        timestamp_ns as nat,
    ) + seq![','] + source
}

/// Build a row of `raw_index.csv`.
pub fn index_row(offset: u64, len: u64, timestamp_ns: u64, source: &str) -> (row: String)
    ensures
        row@ == spec_index_row(offset, len, timestamp_ns, source@),
{
    let mut out: Vec<char> = Vec::new();
    push_dec(&mut out, offset);
    out.push(',');
    push_dec(&mut out, len);
    out.push(',');
    push_dec(&mut out, timestamp_ns);
    out.push(',');
    push_str_chars(&mut out, source);
    assert(out@ =~= spec_index_row(offset, len, timestamp_ns, source@));
    string_from_chars(&out)
}

/// `names` joined with `sep` between consecutive names.
pub open spec fn spec_join(names: Seq<String>, sep: char) -> Seq<char>
    decreases names.len(),
{
    if names.len() == 0 {
        Seq::empty()
    } else if names.len() == 1 {
        names[0]@
    } else {
        spec_join(names.drop_last(), sep) + seq![sep] + names.last()@
    }
}

/// The session directory name: the compact start time, `-`, and the source
/// names joined with `-`.
pub open spec fn spec_session_dir_name(start_secs: u64, sources: Seq<String>) -> Seq<char> {
    spec_iso8601(start_secs as nat, true) + seq!['-'] + spec_join(sources, '-')
}

/// The session directory name for a session started at `start_secs`
/// (seconds since the Unix epoch) recording `sources`.
pub fn session_dir_name(start_secs: u64, sources: &[String]) -> (name: String)
    ensures
        name@ == spec_session_dir_name(start_secs, sources@),
{
    let mut out = iso8601_chars(start_secs, true);
    out.push('-');
    let ghost prefix = out@;
    let mut i: usize = 0;
    while i < sources.len()
        invariant
            i <= sources@.len(),
            out@ == prefix + spec_join(sources@.subrange(0, i as int), '-'),
        decreases sources@.len() - i,
    {
        let ghost pre = sources@.subrange(0, i + 1);
        assert(pre.drop_last() =~= sources@.subrange(0, i as int));
        if i > 0 {
            out.push('-');
        }
        push_str_chars(&mut out, sources[i].as_str());
        i = i + 1;
        assert(out@ =~= prefix + spec_join(sources@.subrange(0, i as int), '-'));
    }
    assert(sources@.subrange(0, sources@.len() as int) =~= sources@);
    string_from_chars(&out)
}

} // verus!
