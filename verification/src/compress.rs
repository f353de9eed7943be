use vstd::prelude::*;
use std::io::Read;
use std::io::Write;

verus! {

/// What a byte stream yields when run through xz decompression:
/// the decompressed bytes, or nothing if the stream is not well formed.
pub uninterp spec fn xz_decompressed(data: Seq<u8>) -> Option<Seq<u8>>;

/// What a byte stream yields when run through zstd decompression.
pub uninterp spec fn zstd_decompressed(data: Seq<u8>) -> Option<Seq<u8>>;

/// Relies on xz2's single-stream XzEncoder: a stream it produces
/// decompresses back to exactly the input bytes.
#[verifier::external_body]
pub(crate) fn compress_xz_stream(bytes: &[u8], level: u32) -> (r: Option<Vec<u8>>)
    requires
        level <= 9,
    ensures
        r matches Some(c) ==> xz_decompressed(c@) == Some(bytes@),
{
    let mut encoder = xz2::bufread::XzEncoder::new(bytes, level);
    let mut out = Vec::new();
    match encoder.read_to_end(&mut out) {
        Ok(_) => Some(out),
        Err(_) => None,
    }
}

/// Relies on xz2's multi-threaded XzEncoder: whatever thread count is
/// used, the produced stream decompresses back to exactly the input.
#[verifier::external_body]
pub(crate) fn compress_xz(bytes: &[u8], threads: u32) -> (r: Option<Vec<u8>>)
    requires
        threads >= 1,
    ensures
        r matches Some(c) ==> xz_decompressed(c@) == Some(bytes@),
{
    let stream = match xz2::stream::MtStreamBuilder::new().threads(threads).preset(6).encoder() {
        Ok(s) => s,
        Err(_) => return None,
    };
    let mut compressed = Vec::new();
    let mut writer = xz2::write::XzEncoder::new_stream(&mut compressed, stream);
    if writer.write_all(bytes).is_err() {
        return None;
    }
    if writer.finish().is_err() {
        return None;
    }
    Some(compressed)
}

/// Relies on xz2's XzDecoder: decompression is a function of the bytes
/// alone, failing exactly on streams xz cannot decode.
#[verifier::external_body]
pub(crate) fn decompress_xz(bytes: &[u8]) -> (r: Option<Vec<u8>>)
    ensures
        match r {
            Some(v) => xz_decompressed(bytes@) == Some(v@),
            None => xz_decompressed(bytes@) is None,
        },
{
    let mut decoder = xz2::bufread::XzDecoder::new(bytes);
    let mut out = Vec::new();
    match decoder.read_to_end(&mut out) {
        Ok(_) => Some(out),
        Err(_) => None,
    }
}

/// Relies on zstd::stream::encode_all: the produced frame decompresses
/// back to exactly the input bytes.
#[verifier::external_body]
pub(crate) fn compress_zstd(bytes: &[u8], level: i32) -> (r: Option<Vec<u8>>)
    ensures
        r matches Some(c) ==> zstd_decompressed(c@) == Some(bytes@),
{
    match zstd::stream::encode_all(bytes, level) {
        Ok(c) => Some(c),
        Err(_) => None,
    }
}

/// Relies on zstd::stream::decode_all: decompression is a function of
/// the bytes alone, failing exactly on frames zstd cannot decode.
#[verifier::external_body]
pub(crate) fn decompress_zstd(bytes: &[u8]) -> (r: Option<Vec<u8>>)
    ensures
        match r {
            Some(v) => zstd_decompressed(bytes@) == Some(v@),
            None => zstd_decompressed(bytes@) is None,
        },
{
    match zstd::stream::decode_all(bytes) {
        Ok(v) => Some(v),
        Err(_) => None,
    }
}

} // verus!
