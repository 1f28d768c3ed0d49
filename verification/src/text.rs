//! Text building blocks: decimal and hexadecimal digits, and the few std
//! string operations the library needs, with their contracts.

use vstd::prelude::*;

verus! {

// ---------------------------------------------------------------------------
// std string operations
// ---------------------------------------------------------------------------

/// Calls `String::push`; the contract claims the character is appended.
#[verifier::external_body]
fn string_push(s: &mut String, c: char)
    ensures
        final(s)@ == old(s)@.push(c),
{
    s.push(c)
}

/// A character of the Unicode White_Space property, the whitespace that
/// `str::trim` removes: U+0009..U+000D, U+0020, U+0085, U+00A0, U+1680,
/// U+2000..U+200A, U+2028, U+2029, U+202F, U+205F and U+3000.
pub open spec fn is_white_space(c: char) -> bool {
    ||| ('\u{9}' <= c && c <= '\u{d}')
    ||| c == ' '
    ||| c == '\u{85}'
    ||| c == '\u{a0}'
    ||| c == '\u{1680}'
    ||| ('\u{2000}' <= c && c <= '\u{200a}')
    ||| c == '\u{2028}'
    ||| c == '\u{2029}'
    ||| c == '\u{202f}'
    ||| c == '\u{205f}'
    ||| c == '\u{3000}'
}

/// `s` without its leading whitespace.
pub open spec fn trim_start_ws(s: Seq<char>) -> Seq<char>
    decreases s.len(),
{
    if s.len() > 0 && is_white_space(s[0]) {
        trim_start_ws(s.drop_first())
    } else {
        s
    }
}

/// `s` without its trailing whitespace.
pub open spec fn trim_end_ws(s: Seq<char>) -> Seq<char>
    decreases s.len(),
{
    if s.len() > 0 && is_white_space(s.last()) {
        trim_end_ws(s.drop_last())
    } else {
        s
    }
}

/// The text left after removing leading and trailing whitespace.
pub open spec fn spec_str_trim(s: Seq<char>) -> Seq<char> {
    trim_end_ws(trim_start_ws(s))
}

/// Calls `str::trim`; the contract claims its documented result: the text
/// without its leading and trailing White_Space characters.
#[verifier::external_body]
pub(crate) fn str_trim(s: &str) -> (t: &str)
    ensures
        t@ == spec_str_trim(s@),
{
    s.trim()
}

/// A string holding exactly `chars`, in order.
pub(crate) fn string_from_chars(chars: &Vec<char>) -> (s: String)
    ensures
        s@ == chars@,
{
    let mut s = String::new();
    let mut i: usize = 0;
    while i < chars.len()
        invariant
            i <= chars@.len(),
            s@ == chars@.take(i as int),
        decreases chars@.len() - i,
    {
        string_push(&mut s, chars[i]);
        i = i + 1;
        assert(s@ =~= chars@.take(i as int));
    }
    assert(chars@.take(chars@.len() as int) =~= chars@);
    s
}

/// The characters of a string, in order.
pub(crate) fn str_to_chars(s: &str) -> (chars: Vec<char>)
    ensures
        chars@ == s@,
{
    broadcast use vstd::string::axiom_spec_iter;
    let mut out: Vec<char> = Vec::new();
    for c in it: s.chars()
        invariant
            it.seq() == s@,
            out@ == it.seq().take(it.index() as int),
    {
        out.push(c);
        assert(out@ =~= it.seq().take(it.index() + 1));
    }
    assert(s@.take(s@.len() as int) =~= s@);
    out
}

/// Whether two string slices hold the same characters.
pub(crate) fn str_eq(a: &str, b: &str) -> (eq: bool)
    ensures
        eq == (a@ == b@),
{
    let x = str_to_chars(a);
    let y = str_to_chars(b);
    if x.len() != y.len() {
        return false;
    }
    let mut k: usize = 0;
    while k < x.len()
        invariant
            x@ == a@,
            y@ == b@,
            x@.len() == y@.len(),
            k <= x@.len(),
            forall|i: int| 0 <= i < k ==> x@[i] == y@[i],
        decreases x@.len() - k,
    {
        if x[k] != y[k] {
            return false;
        }
        k = k + 1;
    }
    assert(x@ =~= y@);
    true
}

/// Append the characters of `s` to `out`.
pub fn push_str_chars(out: &mut Vec<char>, s: &str)
    ensures
        final(out)@ == old(out)@ + s@,
{
    let chars = str_to_chars(s);
    let ghost start = out@;
    let mut i: usize = 0;
    while i < chars.len()
        invariant
            i <= chars@.len(),
            chars@ == s@,
            out@ == start + chars@.subrange(0, i as int),
        decreases chars@.len() - i,
    {
        out.push(chars[i]);
        i = i + 1;
        assert(out@ =~= start + chars@.subrange(0, i as int));
    }
    assert(chars@.subrange(0, chars@.len() as int) =~= chars@);
}

// ---------------------------------------------------------------------------
// Decimal digits
// ---------------------------------------------------------------------------

/// The character of a decimal digit `0..9`.
pub open spec fn dec_char(d: nat) -> char {
    if d == 0 {
        '0'
    } else if d == 1 {
        '1'
    } else if d == 2 {
        '2'
    } else if d == 3 {
        '3'
    } else if d == 4 {
        '4'
    } else if d == 5 {
        '5'
    } else if d == 6 {
        '6'
    } else if d == 7 {
        '7'
    } else if d == 8 {
        '8'
    } else {
        '9'
    }
}

/// The decimal representation of `n`, without leading zeros (`0` is "0").
pub open spec fn dec_digits(n: nat) -> Seq<char>
    decreases n,
{
    if n < 10 {
        seq![dec_char(n)]
    } else {
        dec_digits(n / 10).push(dec_char(n % 10))
    }
}

/// The decimal representation of `n`, left-padded with `0` to at least
/// `width` characters (as `{:0width$}` formats it).
pub open spec fn dec_padded(n: nat, width: nat) -> Seq<char> {
    let d = dec_digits(n);
    if d.len() < width {
        Seq::new((width - d.len()) as nat, |i: int| '0') + d
    } else {
        d
    }
}

/// The character of decimal digit `d`.
pub fn dec_char_of(d: u64) -> (c: char)
    requires
        d < 10,
    ensures
        c == dec_char(d as nat),
{
    if d == 0 {
        '0'
    } else if d == 1 {
        '1'
    } else if d == 2 {
        '2'
    } else if d == 3 {
        '3'
    } else if d == 4 {
        '4'
    } else if d == 5 {
        '5'
    } else if d == 6 {
        '6'
    } else if d == 7 {
        '7'
    } else if d == 8 {
        '8'
    } else {
        '9'
    }
}

/// Append the decimal digits of `n`.
pub fn push_dec(out: &mut Vec<char>, n: u64)
    ensures
        final(out)@ == old(out)@ + dec_digits(n as nat),
    decreases n,
{
    if n >= 10 {
        push_dec(out, n / 10);
    }
    out.push(dec_char_of(n % 10));
    assert(out@ =~= old(out)@ + dec_digits(n as nat));
}

/// Append `n` in decimal, left-padded with `0` to at least `width`
/// characters.
pub fn push_dec_padded(out: &mut Vec<char>, n: u64, width: usize)
    ensures
        final(out)@ == old(out)@ + dec_padded(n as nat, width as nat),
{
    let ghost start = out@;
    let mut digits: Vec<char> = Vec::new();
    push_dec(&mut digits, n);
    assert(digits@ =~= dec_digits(n as nat));
    let len = digits.len();
    if len < width {
        let mut k: usize = 0;
        while k < width - len
            invariant
                k <= width - len,
                len < width,
                out@ == start + Seq::new(k as nat, |i: int| '0'),
            decreases width - len - k,
        {
            out.push('0');
            k = k + 1;
            assert(out@ =~= start + Seq::new(k as nat, |i: int| '0'));
        }
    }
    let ghost mid = out@;
    let mut i: usize = 0;
    while i < len
        invariant
            len == digits@.len(),
            i <= len,
            out@ == mid + digits@.subrange(0, i as int),
        decreases len - i,
    {
        out.push(digits[i]);
        i = i + 1;
        assert(out@ =~= mid + digits@.subrange(0, i as int));
    }
    assert(digits@.subrange(0, len as int) =~= digits@);
    assert(out@ =~= start + dec_padded(n as nat, width as nat));
}

// ---------------------------------------------------------------------------
// Hexadecimal digits
// ---------------------------------------------------------------------------

/// The lowercase character of a hexadecimal digit `0..15`.
pub open spec fn hex_char(d: nat) -> char {
    if d < 10 {
        dec_char(d)
    } else if d == 10 {
        'a'
    } else if d == 11 {
        'b'
    } else if d == 12 {
        'c'
    } else if d == 13 {
        'd'
    } else if d == 14 {
        'e'
    } else {
        'f'
    }
}

/// The lowercase character of hexadecimal digit `d`.
pub fn hex_char_of(d: u64) -> (c: char)
    requires
        d < 16,
    ensures
        c == hex_char(d as nat),
{
    if d < 10 {
        dec_char_of(d)
    } else if d == 10 {
        'a'
    } else if d == 11 {
        'b'
    } else if d == 12 {
        'c'
    } else if d == 13 {
        'd'
    } else if d == 14 {
        'e'
    } else {
        'f'
    }
}

/// The two lowercase hex digits of a byte, high nibble first (`{:02x}`).
pub open spec fn hex_byte(b: u8) -> Seq<char> {
    seq![hex_char((b / 16) as nat), hex_char((b % 16) as nat)]
}

/// `x` as exactly `digits` lowercase hex digits, most significant first
/// (`{:0digits$x}` for values that fit).
pub open spec fn hex_fixed(x: nat, digits: nat) -> Seq<char>
    decreases digits,
{
    if digits == 0 {
        Seq::empty()
    } else {
        hex_fixed(x / 16, (digits - 1) as nat).push(hex_char(x % 16))
    }
}

/// `hex_fixed` gives exactly `digits` characters, each a lowercase hex
/// digit.
pub proof fn lemma_hex_fixed_shape(x: nat, digits: nat)
    ensures
        hex_fixed(x, digits).len() == digits,
        forall|i: int| 0 <= i < digits ==> is_hex_char(#[trigger] hex_fixed(x, digits)[i]),
    decreases digits,
{
    if digits > 0 {
        lemma_hex_fixed_shape(x / 16, (digits - 1) as nat);
        let d = x % 16;
        assert(is_hex_char(hex_char(d))) by {
            if d < 10 {
                assert(dec_char(d) == dec_char(d));
            }
        }
        assert forall|i: int| 0 <= i < digits implies is_hex_char(#[trigger] hex_fixed(x, digits)[i]) by {
            if i < digits - 1 {
                assert(hex_fixed(x, digits)[i] == hex_fixed(x / 16, (digits - 1) as nat)[i]);
            }
        }
    }
}

/// A lowercase hexadecimal digit character.
pub open spec fn is_hex_char(c: char) -> bool {
    ('0' <= c && c <= '9') || ('a' <= c && c <= 'f')
}

/// Append `x` as exactly `digits` lowercase hex digits.
pub fn push_hex_fixed(out: &mut Vec<char>, x: u64, digits: u64)
    ensures
        final(out)@ == old(out)@ + hex_fixed(x as nat, digits as nat),
    decreases digits,
{
    if digits > 0 {
        push_hex_fixed(out, x / 16, digits - 1);
        out.push(hex_char_of(x % 16));
        assert(out@ =~= old(out)@ + hex_fixed(x as nat, digits as nat));
    } else {
        assert(out@ =~= old(out)@ + hex_fixed(x as nat, digits as nat));
    }
}

// ---------------------------------------------------------------------------
// Parsing decimal integers
// ---------------------------------------------------------------------------

/// A decimal digit character.
pub open spec fn is_dec_char(c: char) -> bool {
    '0' <= c && c <= '9'
}

/// The value of the decimal digits `s`, most significant first.
pub open spec fn dec_value(s: Seq<char>) -> nat
    decreases s.len(),
{
    if s.len() == 0 {
        0
    } else {
        dec_value(s.drop_last()) * 10 + ((s.last() as u32) - ('0' as u32)) as nat
    }
}

/// `s` without one leading `+`.
pub open spec fn strip_plus(s: Seq<char>) -> Seq<char> {
    if s.len() > 0 && s[0] == '+' {
        s.drop_first()
    } else {
        s
    }
}

/// The value of a run of decimal digits when it is one (not empty, digits
/// only) and fits in a `u64`.
pub open spec fn spec_parse_digits(digits: Seq<char>) -> Option<u64> {
    if digits.len() == 0 {
        None
    } else if exists|i: int| 0 <= i < digits.len() && !is_dec_char(#[trigger] digits[i]) {
        None
    } else if dec_value(digits) > u64::MAX {
        None
    } else {
        Some(dec_value(digits) as u64)
    }
}

/// What `str::parse::<u64>` gives for `s`: an optional `+` followed by at
/// least one decimal digit and nothing else, with a value that fits.
pub open spec fn spec_parse_u64(s: Seq<char>) -> Option<u64> {
    spec_parse_digits(strip_plus(s))
}

proof fn lemma_dec_value_prefix(s: Seq<char>, k: int)
    requires
        0 <= k <= s.len(),
        forall|i: int| 0 <= i < s.len() ==> is_dec_char(#[trigger] s[i]),
    ensures
        dec_value(s.take(k)) <= dec_value(s),
    decreases s.len(),
{
    if k < s.len() {
        assert(s.drop_last().take(k) =~= s.take(k));
        assert forall|i: int| 0 <= i < s.drop_last().len() implies is_dec_char(#[trigger] s.drop_last()[i]) by {
            assert(s.drop_last()[i] == s[i]);
        }
        lemma_dec_value_prefix(s.drop_last(), k);
    } else {
        assert(s.take(k) =~= s);
    }
}

/// Parse a decimal `u64` as `str::parse::<u64>` does: an optional `+`,
/// then one or more digits and nothing else, without overflow.
pub fn parse_u64(s: &str) -> (v: Option<u64>)
    ensures
        v == spec_parse_u64(s@),
{
    let chars = str_to_chars(s);
    let start: usize = if chars.len() > 0 && chars[0] == '+' {
        1
    } else {
        0
    };
    let ghost digits = strip_plus(s@);
    assert(digits =~= chars@.skip(start as int));
    if start == chars.len() {
        return None;
    }
    // A character that is not a digit makes the text invalid, whatever its value.
    let mut k: usize = start;
    while k < chars.len()
        invariant
            chars@ == s@,
            start <= k <= chars@.len(),
            digits =~= chars@.skip(start as int),
            digits == strip_plus(s@),
            forall|i: int| start <= i < k ==> is_dec_char(#[trigger] chars@[i]),
        decreases chars@.len() - k,
    {
        if !('0' <= chars[k] && chars[k] <= '9') {
            assert(digits[k - start] == chars@[k as int]);
            assert(!is_dec_char(digits[k - start]));
            return None;
        }
        k = k + 1;
    }
    assert forall|i: int| 0 <= i < digits.len() implies is_dec_char(#[trigger] digits[i]) by {
        assert(digits[i] == chars@[start + i]);
    }
    let mut acc: u64 = 0;
    let mut k: usize = start;
    assert(digits.take(0) =~= Seq::<char>::empty());
    while k < chars.len()
        invariant
            chars@ == s@,
            start <= k <= chars@.len(),
            digits =~= chars@.skip(start as int),
            digits == strip_plus(s@),
            forall|i: int| 0 <= i < digits.len() ==> is_dec_char(#[trigger] digits[i]),
            acc == dec_value(digits.take(k - start)),
        decreases chars@.len() - k,
    {
        assert(digits[k - start] == chars@[k as int]);
        assert(is_dec_char(chars@[k as int]));
        let d = (chars[k] as u32) - ('0' as u32);
        let ghost pre = digits.take(k - start + 1);
        assert(pre.drop_last() =~= digits.take(k - start));
        assert(pre.last() == chars@[k as int]);
        assert(dec_value(pre) == acc * 10 + d);
        match acc.checked_mul(10) {
            Some(t) => match t.checked_add(d as u64) {
                Some(u) => {
                    acc = u;
                }
                None => {
                    proof {
                        lemma_dec_value_prefix(digits, k - start + 1);
                    }
                    return None;
                }
            },
            None => {
                proof {
                    lemma_dec_value_prefix(digits, k - start + 1);
                }
                return None;
            }
        }
        k = k + 1;
    }
    assert(digits.take(k - start) =~= digits);
    Some(acc)
}

} // verus!
