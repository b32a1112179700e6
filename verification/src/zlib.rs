//! Trusted interface to the zlib codec of `miniz_oxide`.
use miniz_oxide::inflate::DecompressError;
use vstd::prelude::*;

verus! {

/// Declares `miniz_oxide::inflate::DecompressError` as an opaque type.
#[verifier::external_type_specification]
#[verifier::external_body]
pub struct ExDecompressError(DecompressError);

// What `decompress_to_vec_zlib` makes of `input`: the decompressed bytes, or
// `None` where it fails (no complete zlib stream with a matching checksum at
// the start of the input).
pub uninterp spec fn zlib_decompressed(input: Seq<u8>) -> Option<Seq<u8>>;

// The zlib stream that compressing `input` at `level` produces.
pub uninterp spec fn zlib_compressed(input: Seq<u8>, level: u8) -> Seq<u8>;

/// Calls `miniz_oxide::inflate::decompress_to_vec_zlib`. Trusted claim: whether
/// it succeeds, and the bytes it returns, depend on the input alone, as named by
/// `zlib_decompressed`; the DEFLATE algorithm is not restated here. The error
/// value (status and partial output) is not described.
#[verifier::external_body]
pub(crate) fn inflate_zlib(input: &[u8]) -> (res: Result<Vec<u8>, DecompressError>)
    ensures
        match res {
            Ok(v) => zlib_decompressed(input@) == Some(v@),
            Err(_) => zlib_decompressed(input@) is None,
        },
{
    miniz_oxide::inflate::decompress_to_vec_zlib(input)
}

/// Calls `miniz_oxide::deflate::compress_to_vec_zlib`. Trusted claim: the
/// result is the stream named by `zlib_compressed(input, level)`; it
/// decompresses to `input` again (the round trip the crate documents); and it
/// is not empty (the compressor always writes the zlib header and checksum).
/// The compressed bytes themselves are not described.
#[verifier::external_body]
pub(crate) fn deflate_zlib(input: &[u8], level: u8) -> (res: Vec<u8>)
    requires
        level <= 10,
    ensures
        res@ == zlib_compressed(input@, level),
        zlib_decompressed(res@) == Some(input@),
        res@.len() > 0,
{
    miniz_oxide::deflate::compress_to_vec_zlib(input, level)
}

} // verus!
