//! Standard per-stream measurements: the zlib-compressed size used as a
//! structure proxy.

use vstd::prelude::*;

use flate2::write::ZlibEncoder;
use flate2::Compression;
use std::io::Write;

verus! {

/// The zlib stream (best compression) of a byte string, or `None` when the
/// encoder reports an error.
pub uninterp spec fn spec_zlib_best(data: Seq<u8>) -> Option<Seq<u8>>;

/// Calls `flate2::write::ZlibEncoder` at `Compression::best()` over a
/// `Vec<u8>` (`write_all`, then `finish`); the contract names the outcome
/// as a function of the input bytes alone.
#[verifier::external_body]
fn zlib_compress_best(data: &[u8]) -> (out: Option<Vec<u8>>)
    ensures
        match out {
            Some(v) => spec_zlib_best(data@) == Some(v@),
            None => spec_zlib_best(data@) is None,
        },
{
    let mut enc = ZlibEncoder::new(Vec::new(), Compression::best());
    if enc.write_all(data).is_err() {
        return None;
    }
    enc.finish().ok()
}

/// The compressed size that the compression ratio is taken from: `None`
/// for empty data or when the encoder fails.
pub open spec fn spec_compressed_len(data: Seq<u8>) -> Option<nat> {
    if data.len() == 0 {
        None
    } else {
        match spec_zlib_best(data) {
            Some(c) => Some(c.len()),
            None => None,
        }
    }
}

/// The zlib (level 9) compressed size of `data`; `None` for empty data or
/// when compression fails. The compression ratio is this size over the
/// data length.
pub fn compressed_len(data: &[u8]) -> (n: Option<usize>)
    ensures
        match n {
            Some(k) => spec_compressed_len(data@) == Some(k as nat),
            None => spec_compressed_len(data@) is None,
        },
{
    if data.len() == 0 {
        return None;
    }
    match zlib_compress_best(data) {
        Some(c) => Some(c.len()),
        None => None,
    }
}

} // verus!
