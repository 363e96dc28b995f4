//! The calls into other crates. What they return is named here, or stated, and not proved.
use base64::prelude::BASE64_STANDARD;
use base64::Engine;
use std::collections::HashMap;
use std::io::Read;
use vstd::prelude::*;

use crate::accumulator;

verus! {

/// The bytes that a text in standard Base64 stands for, or nothing where it is not valid.
pub uninterp spec fn base64_bytes(text: Seq<char>) -> Option<Seq<u8>>;

/// The view of bytes that may be missing.
pub open spec fn opt_bytes(bytes: Option<Vec<u8>>) -> Option<Seq<u8>> {
    match bytes {
        Some(v) => Some(v@),
        None => None,
    }
}

/// Calls `base64::Engine::decode` of `BASE64_STANDARD`. The result is named: it is what the
/// engine makes of the text, and nothing where it reports an error.
#[verifier::external_body]
pub(crate) fn decode_base64(text: &str) -> (bytes: Option<Vec<u8>>)
    ensures
        opt_bytes(bytes) == base64_bytes(text@),
{
    BASE64_STANDARD.decode(text).ok()
}

/// The text that is read from Zstandard data, up to its end or to the first error.
pub uninterp spec fn zstd_text(data: Seq<u8>) -> Seq<char>;

/// Calls `zstd::stream::read::Decoder::new` and reads the decoder to its end. The result is
/// named: it is the text that the read leaves, empty where no decoder could be made or where
/// what came out is not UTF-8. What a read that ends in an error leaves is named too, and not
/// described any further.
#[verifier::external_body]
pub(crate) fn read_zstd(data: &[u8]) -> (text: String)
    ensures
        text@ == zstd_text(data@),
{
    let mut text = String::new();
    if let Ok(mut decoder) = zstd::stream::read::Decoder::new(data) {
        let _ = decoder.read_to_string(&mut text);
    }
    text
}

/// The text that gzip data holds, or nothing where it cannot be read to its end.
pub uninterp spec fn gzip_text(data: Seq<u8>) -> Option<Seq<char>>;

/// Calls `flate2::read::GzDecoder::new` and reads the decoder to its end. The result is named:
/// it is the text of the first gzip member, and nothing where the read ends in an error.
#[verifier::external_body]
pub(crate) fn read_gzip(data: &[u8]) -> (text: Option<String>)
    ensures
        crate::text::opt_text(text) == gzip_text(data@),
{
    let mut text = String::new();
    match flate2::read::GzDecoder::new(data).read_to_string(&mut text) {
        Ok(_) => Some(text),
        Err(_) => None,
    }
}

/// The counts that a JSON object of numbers holds, or nothing where the text is no such object.
pub uninterp spec fn json_counts(text: Seq<char>) -> Option<Map<Seq<char>, u32>>;

/// Calls `serde_json::from_str` for a map from text to 32-bit counts. The map is named; it is
/// handed out as a list with one pair for each of its keys, in no particular order.
#[verifier::external_body]
pub(crate) fn parse_counts(text: &str) -> (counts: Option<Vec<(String, u32)>>)
    ensures
        counts is Some == json_counts(text@) is Some,
        counts is Some ==> accumulator::lists_patterns(
            accumulator::pattern_views(counts->0@),
            json_counts(text@)->0,
        ),
{
    let counts: Option<HashMap<String, u32>> = serde_json::from_str(text).ok();
    counts.map(|m| m.into_iter().collect())
}

/// Bytes are seen one by one, and missing ones as missing.
pub proof fn law_bytes_are_seen_whole(bytes: Vec<u8>)
    ensures
        opt_bytes(Some(bytes)) == Some(bytes@),
        opt_bytes(None) == None::<Seq<u8>>,
{
}

} // verus!
