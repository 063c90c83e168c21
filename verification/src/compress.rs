//! Trusted boundary to the outside compression codecs and to UTF-8 decoding.
//!
//! The compressed byte images and the partial inverse decoders are named
//! rather than written out: nothing here restates the gzip or zstd wire
//! formats, only what the codec libraries document — encoding is a function
//! of the payload (and, for gzip, the level) alone, and decoding inverts it.

use vstd::prelude::*;

verus! {

/// The single-member gzip image of `data` at the given compression level, as
/// flate2's encoder produces it (fixed header: zero mtime, unknown OS).
pub uninterp spec fn gzip_of(data: Seq<u8>, level: int) -> Seq<u8>;

/// The payload that gzip decoding yields for `data` — the concatenation of
/// the payloads of its members — or `None` when `data` does not decode.
pub uninterp spec fn gunzip_of(data: Seq<u8>) -> Option<Seq<u8>>;

/// The zstd frame image of `data` at the codec's default level.
pub uninterp spec fn zstd_of(data: Seq<u8>) -> Seq<u8>;

/// The payload that zstd decoding yields for `data`, or `None` when `data`
/// does not decode.
pub uninterp spec fn unzstd_of(data: Seq<u8>) -> Option<Seq<u8>>;

/// Relies on flate2's `write::GzEncoder` over a `Vec<u8>` sink: the output is
/// one well-formed gzip member holding `data`, a function of `data` and
/// `level` alone (the encoder writes a fixed header), and flate2's own
/// decoder inverts it. Writes to a `Vec` never fail, so neither does this.
#[verifier::external_body]
pub(crate) fn gzip_compress(data: &Vec<u8>, level: u32) -> (r: Vec<u8>)
    requires
        level <= 9,
    ensures
        r@ == gzip_of(data@, level as int),
        gunzip_of(r@) == Some(data@),
{
    let mut enc = flate2::write::GzEncoder::new(
        Vec::new(),
        flate2::Compression::new(level),
    );
    std::io::Write::write_all(&mut enc, data.as_slice()).expect("a Vec sink accepts all writes");
    enc.finish().expect("a Vec sink accepts all writes")
}

/// Relies on flate2's `bufread::MultiGzDecoder`: back-to-back gzip members
/// decode as one continuous payload, a function of the input bytes alone, and
/// undecodable input is reported as an error.
#[verifier::external_body]
pub(crate) fn gzip_decompress(data: &Vec<u8>) -> (r: Option<Vec<u8>>)
    ensures
        r matches Some(v) ==> gunzip_of(data@) == Some(v@),
        r is None ==> gunzip_of(data@) is None,
{
    let mut dec = flate2::bufread::MultiGzDecoder::new(data.as_slice());
    let mut out = Vec::new();
    match std::io::Read::read_to_end(&mut dec, &mut out) {
        Ok(_) => Some(out),
        Err(_) => None,
    }
}

/// Relies on zstd's `stream::encode_all` at level 0 (the codec's default
/// level): the output is one zstd frame holding `data`, a function of `data`
/// alone, and zstd's own decoder inverts it.
#[verifier::external_body]
pub(crate) fn zstd_compress(data: &Vec<u8>) -> (r: Option<Vec<u8>>)
    ensures
        r matches Some(v) ==> v@ == zstd_of(data@) && unzstd_of(v@) == Some(data@),
{
    zstd::stream::encode_all(data.as_slice(), 0).ok()
}

/// Relies on zstd's `stream::decode_all`: the decoded payload is a function
/// of the input bytes alone, and undecodable input is reported as an error.
#[verifier::external_body]
pub(crate) fn zstd_decompress(data: &Vec<u8>) -> (r: Option<Vec<u8>>)
    ensures
        r matches Some(v) ==> unzstd_of(data@) == Some(v@),
        r is None ==> unzstd_of(data@) is None,
{
    zstd::stream::decode_all(data.as_slice()).ok()
}

/// Relies on `String::from_utf8`: it succeeds exactly on valid UTF-8 and
/// yields the decoded characters.
#[verifier::external_body]
pub(crate) fn vec_to_string(b: Vec<u8>) -> (r: Option<String>)
    ensures
        r matches Some(s) ==> vstd::utf8::valid_utf8(b@) && s@ == vstd::utf8::decode_utf8(b@),
        r is None ==> !vstd::utf8::valid_utf8(b@),
{
    String::from_utf8(b).ok()
}

} // verus!
