//! The outside codecs the build relies on: the content hash, the text
//! encoding of tokens, and the two compressors. Each call is made by one
//! small function whose contract is believed rather than proved; what a codec
//! returns is given a name so that the rest of the library can speak of it.

use vstd::prelude::*;

verus! {

/// The 128-bit XXH3 hash of `input`, as `xxhash_rust::xxh3::xxh3_128`
/// computes it (seed 0, default secret).
pub uninterp spec fn xxh3_128_of(input: Seq<u8>) -> u128;

/// The base64 text of `input` in the URL-safe alphabet without padding, as
/// `base64::encode_config` writes it under `base64::URL_SAFE_NO_PAD`.
pub uninterp spec fn base64_url_of(input: Seq<u8>) -> Seq<char>;

/// Whether a character belongs to the URL-safe base64 alphabet: a letter, a
/// digit, `-` or `_`.
pub open spec fn is_url_safe(c: char) -> bool {
    let code = c as u32;
    ||| 'A' as u32 <= code <= 'Z' as u32
    ||| 'a' as u32 <= code <= 'z' as u32
    ||| '0' as u32 <= code <= '9' as u32
    ||| c == '-'
    ||| c == '_'
}

/// The gzip stream that libdeflate produces for `input` at its best
/// compression level.
pub uninterp spec fn gzip_of(input: Seq<u8>) -> Seq<u8>;

/// The number of bytes that libdeflate returns as the bound on the gzip stream
/// of any input of `input_len` bytes at its best compression level.
pub uninterp spec fn gzip_bound_of(input_len: usize) -> usize;

/// The brotli stream that `brotli::CompressorWriter` emits for `input` when it
/// is created with the given buffer size, quality and window, fed the whole
/// input in one `write_all`, flushed, and closed.
pub uninterp spec fn brotli_of(buffer_size: usize, quality: u32, lgwin: u32, input: Seq<u8>) -> Seq<u8>;

/// Whether such a `brotli::CompressorWriter` takes the whole input and the
/// flush without reporting an error.
pub uninterp spec fn brotli_done(buffer_size: usize, quality: u32, lgwin: u32, input: Seq<u8>) -> bool;

/// `libdeflater::CompressionError`, the error of the gzip compressor. It is
/// only handed on.
#[verifier::external_type_specification]
#[verifier::external_body]
pub struct ExCompressionError(libdeflater::CompressionError);

/// `std::io::Error`, the error of the brotli writer. It is only handed on.
#[verifier::external_type_specification]
#[verifier::external_body]
pub struct ExIoError(std::io::Error);

/// Calls `xxhash_rust::xxh3::xxh3_128`. The hash depends on the bytes alone;
/// the contract only gives it its name.
#[verifier::external_body]
pub(crate) fn xxh3_128(input: &[u8]) -> (hash: u128)
    ensures
        hash == xxh3_128_of(input@),
{
    xxhash_rust::xxh3::xxh3_128(input)
}

/// Calls `base64::encode_config` with `base64::URL_SAFE_NO_PAD`. The input is
/// limited to the sixteen bytes of a hash, far below the length at which the
/// encoder's size computation overflows and panics. Beside the name of the
/// text, the contract gives what the encoder's size computation and its table
/// show: four characters for every three bytes, two or three for a rest of
/// one or two bytes, no padding, and every character from the URL-safe
/// alphabet.
#[verifier::external_body]
pub(crate) fn base64_url(input: &[u8]) -> (text: String)
    requires
        input@.len() <= 16,
    ensures
        text@ == base64_url_of(input@),
        text@.len() == (4 * input@.len() + 2) / 3,
        forall|i: int| 0 <= i < text@.len() ==> is_url_safe(#[trigger] text@[i]),
{
    base64::encode_config(input, base64::URL_SAFE_NO_PAD)
}

/// Calls `libdeflater::Compressor::gzip_compress_bound` on a compressor of
/// the best level. libdeflate returns the same bound for the same length
/// every time; the contract only gives it its name.
#[verifier::external_body]
pub(crate) fn gzip_bound(input_len: usize) -> (bound: usize)
    ensures
        bound == gzip_bound_of(input_len),
{
    libdeflater::Compressor::new(libdeflater::CompressionLvl::best()).gzip_compress_bound(input_len)
}

/// Calls `libdeflater::Compressor::gzip_compress` on a compressor of the best
/// level. On success the stream occupies the front of `out` and its length is
/// returned. The call fails only for want of space, and libdeflate documents
/// its bound as a hard upper bound on the stream of any input of that length:
/// with `out` as long as the bound the call succeeds. The bound is a bound
/// only where it is at least the length of the input, as libdeflate says it
/// is; a smaller value can only come from an overflow in computing it, and
/// nothing is promised then. Nothing is claimed of `out` beyond the stream.
#[verifier::external_body]
pub(crate) fn gzip_compress(input: &[u8], out: &mut Vec<u8>) -> (written: Result<
    usize,
    libdeflater::CompressionError,
>)
    ensures
        final(out)@.len() == old(out)@.len(),
        written matches Ok(n) ==> n <= old(out)@.len() && final(out)@.subrange(0, n as int)
            == gzip_of(input@),
        old(out)@.len() >= gzip_bound_of(input@.len() as usize) >= input@.len() ==> written is Ok,
{
    libdeflater::Compressor::new(libdeflater::CompressionLvl::best()).gzip_compress(input, out)
}

/// Runs a `brotli::CompressorWriter` over an empty `Vec`: `new` with the given
/// buffer size, quality and window, `write_all` of the input, `flush`, then
/// `into_inner` to close the stream. An error of `write_all` or of `flush` is
/// handed back as it came. Whether one comes depends on the arguments alone,
/// as the stream does; the contract gives both their names and claims no
/// more of either.
#[verifier::external_body]
pub(crate) fn brotli_compress(input: &[u8], buffer_size: usize, quality: u32, lgwin: u32) -> (stream:
    Result<Vec<u8>, std::io::Error>)
    ensures
        stream is Ok <==> brotli_done(buffer_size, quality, lgwin, input@),
        stream matches Ok(bytes) ==> bytes@ == brotli_of(buffer_size, quality, lgwin, input@),
{
    let mut writer = brotli::CompressorWriter::new(Vec::new(), buffer_size, quality, lgwin);
    std::io::Write::write_all(&mut writer, input)?;
    std::io::Write::flush(&mut writer)?;
    Ok(writer.into_inner())
}

} // verus!
