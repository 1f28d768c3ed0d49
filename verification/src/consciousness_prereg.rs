//! Pre-registration support: the machine fingerprint recorded with an
//! experiment, and the 128-bit parameter hash rendered as hex.

use vstd::prelude::*;

use std::hash::{DefaultHasher, Hash, Hasher};

use crate::text::{
    dec_digits, hex_fixed, is_hex_char, lemma_hex_fixed_shape, push_dec, push_hex_fixed, push_str_chars,
    string_from_chars,
};

verus! {

/// Machine fingerprint for reproducibility.
#[derive(Debug, Clone)]
pub struct MachineFingerprint {
    /// Operating system.
    pub os: String,
    /// Architecture.
    pub arch: String,
    /// Hostname (sanitized).
    pub hostname: String,
    /// Number of available entropy sources.
    pub n_sources: usize,
    /// Source names.
    pub source_names: Vec<String>,
    /// OpenEntropy version.
    pub version: String,
}

impl MachineFingerprint {
    /// A fingerprint for the given machine facts; the number of sources is
    /// the number of names given.
    pub fn new(
        os: String,
        arch: String,
        hostname: String,
        source_names: Vec<String>,
        version: String,
    ) -> (fp: MachineFingerprint)
        ensures
            fp.os == os,
            fp.arch == arch,
            fp.hostname == hostname,
            fp.source_names == source_names,
            fp.n_sources == source_names@.len(),
            fp.version == version,
    {
        let n_sources = source_names.len();
        MachineFingerprint { os, arch, hostname, n_sources, source_names, version }
    }
}

// ---------------------------------------------------------------------------
// Hashing (std's DefaultHasher)
// ---------------------------------------------------------------------------

/// The state of a `DefaultHasher` (its sequence of writes) after a string
/// is hashed into it.
pub uninterp spec fn spec_hash_str(state: Seq<Seq<u8>>, s: Seq<char>) -> Seq<Seq<u8>>;

/// The state of a `DefaultHasher` after a `usize` is hashed into it.
pub uninterp spec fn spec_hash_usize(state: Seq<Seq<u8>>, x: usize) -> Seq<Seq<u8>>;

/// Calls `<str as Hash>::hash` into the hasher; the contract claims only
/// that the new state is determined by the old state and the string.
#[verifier::external_body]
fn hasher_write_str(hasher: &mut DefaultHasher, s: &str)
    ensures
        final(hasher)@ == spec_hash_str(old(hasher)@, s@),
{
    s.hash(hasher)
}

/// Calls `<usize as Hash>::hash` into the hasher; the contract claims only
/// that the new state is determined by the old state and the value. The
/// bytes written are the value's native bytes, so they depend on the
/// target's pointer width; std also leaves `DefaultHasher`'s algorithm free
/// to change between Rust releases, so the named states hold within one
/// build.
#[verifier::external_body]
fn hasher_write_usize(hasher: &mut DefaultHasher, x: usize)
    ensures
        final(hasher)@ == spec_hash_usize(old(hasher)@, x),
{
    x.hash(hasher)
}

/// Two 64-bit hash words rendered as 32 lowercase hex digits
/// (`{:016x}{:016x}`).
pub open spec fn spec_hash_pair_hex(h1: u64, h2: u64) -> Seq<char> {
    hex_fixed(h1 as nat, 16) + hex_fixed(h2 as nat, 16)
}

/// Render two 64-bit hash words as 32 lowercase hex digits.
pub fn hash_pair_hex(h1: u64, h2: u64) -> (s: String)
    ensures
        s@ == spec_hash_pair_hex(h1, h2),
{
    let mut out: Vec<char> = Vec::new();
    push_hex_fixed(&mut out, h1, 16);
    push_hex_fixed(&mut out, h2, 16);
    string_from_chars(&out)
}

/// What `DefaultHasher::finish` returns in a given state.
pub open spec fn spec_finish(state: Seq<Seq<u8>>) -> u64 {
    <DefaultHasher as vstd::std_specs::hash::DefaultHasherAdditionalSpecFns>::spec_finish(state)
}

/// The length in bytes of the UTF-8 encoding of `s`.
pub open spec fn spec_utf8_len(s: Seq<char>) -> usize {
    vstd::utf8::encode_utf8(s).len() as usize
}

/// The text `hash_string` gives for `input`: the hasher's result after the
/// string, then after the string and its length, as 32 hex digits.
pub open spec fn spec_hash_string(input: Seq<char>) -> Seq<char> {
    let after_str = spec_hash_str(Seq::empty(), input);
    let after_len = spec_hash_usize(after_str, spec_utf8_len(input));
    spec_hash_pair_hex(spec_finish(after_str), spec_finish(after_len))
}

/// Whatever the input, its hash text is 32 lowercase hex digits.
pub proof fn lemma_hash_string_shape(input: Seq<char>)
    ensures
        spec_hash_string(input).len() == 32,
        forall|i: int| 0 <= i < 32 ==> is_hex_char(#[trigger] spec_hash_string(input)[i]),
{
    let after_str = spec_hash_str(Seq::empty(), input);
    let after_len = spec_hash_usize(after_str, spec_utf8_len(input));
    let a = hex_fixed(spec_finish(after_str) as nat, 16);
    let b = hex_fixed(spec_finish(after_len) as nat, 16);
    lemma_hex_fixed_shape(spec_finish(after_str) as nat, 16);
    lemma_hex_fixed_shape(spec_finish(after_len) as nat, 16);
    assert forall|i: int| 0 <= i < 32 implies is_hex_char(#[trigger] spec_hash_string(input)[i]) by {
        if i < 16 {
            assert(spec_hash_string(input)[i] == a[i]);
        } else {
            assert(spec_hash_string(input)[i] == b[i - 16]);
        }
    }
}

/// Hash a string with std's `DefaultHasher`: the first word hashes the
/// string, the second additionally its byte length; both are rendered as
/// 32 hex digits.
pub fn hash_string(input: &str) -> (s: String)
    ensures
        s@ == spec_hash_string(input@),
{
    let mut hasher = DefaultHasher::new();
    hasher_write_str(&mut hasher, input);
    let h1 = hasher.finish();
    hasher_write_usize(&mut hasher, input.len());
    let h2 = hasher.finish();
    hash_pair_hex(h1, h2)
}

// ---------------------------------------------------------------------------
// Deep analysis configuration in a pre-registration
// ---------------------------------------------------------------------------

/// The text hashed when a deep analysis configuration joins a
/// pre-registration: the parameter hash, `:deep:`, the configuration hash.
pub open spec fn spec_deep_hash_input(parameter_hash: Seq<char>, config_hash: Seq<char>) -> Seq<char> {
    parameter_hash + ":deep:"@ + config_hash
}

/// The parameter hash of a pre-registration extended by a deep analysis
/// configuration: the hash of the old parameter hash joined to the
/// configuration's hash.
pub fn deep_parameter_hash(parameter_hash: &str, config_hash: &str) -> (s: String)
    ensures
        s@ == spec_hash_string(spec_deep_hash_input(parameter_hash@, config_hash@)),
{
    let mut input: Vec<char> = Vec::new();
    push_str_chars(&mut input, parameter_hash);
    push_str_chars(&mut input, ":deep:");
    push_str_chars(&mut input, config_hash);
    assert(input@ =~= spec_deep_hash_input(parameter_hash@, config_hash@));
    let text = string_from_chars(&input);
    hash_string(text.as_str())
}

/// The summary of a pre-registration extended by a deep analysis
/// configuration.
pub open spec fn spec_deep_summary(
    summary: Seq<char>,
    ordinal_order: nat,
    rqa_dim: nat,
    topology_dim: nat,
    te_bins: nat,
    surrogate_n: nat,
) -> Seq<char> {
    summary + " | Deep analysis: ord="@ + dec_digits(ordinal_order) + " rqa_dim="@ + dec_digits(rqa_dim)
        + " topo_dim="@ + dec_digits(topology_dim) + " te_bins="@ + dec_digits(te_bins) + " surr="@
        + dec_digits(surrogate_n)
}

/// Extend a pre-registration summary with the deep analysis parameters.
pub fn deep_analysis_summary(
    summary: &str,
    ordinal_order: usize,
    rqa_dim: usize,
    topology_dim: usize,
    te_bins: usize,
    surrogate_n: usize,
) -> (s: String)
    ensures
        s@ == spec_deep_summary(
            summary@,
            ordinal_order as nat,
            rqa_dim as nat,
            topology_dim as nat,
            te_bins as nat,
            surrogate_n as nat,
        ),
{
    let mut out: Vec<char> = Vec::new();
    push_str_chars(&mut out, summary);
    push_str_chars(&mut out, " | Deep analysis: ord=");
    push_dec(&mut out, ordinal_order as u64);
    push_str_chars(&mut out, " rqa_dim=");
    push_dec(&mut out, rqa_dim as u64);
    push_str_chars(&mut out, " topo_dim=");
    push_dec(&mut out, topology_dim as u64);
    push_str_chars(&mut out, " te_bins=");
    push_dec(&mut out, te_bins as u64);
    push_str_chars(&mut out, " surr=");
    push_dec(&mut out, surrogate_n as u64);
    assert(out@ =~= spec_deep_summary(
        summary@,
        ordinal_order as nat,
        rqa_dim as nat,
        topology_dim as nat,
        te_bins as nat,
        surrogate_n as nat,
    ));
    string_from_chars(&out)
}

} // verus!
