use vstd::prelude::*;
use vstd::utf8::{valid_utf8, decode_utf8};
use crate::error::OcelError;
use crate::text::{push_text, owned};
use std::io::Read;

verus! {

/// What `flate2::read::GzDecoder` yields when the bytes are read to the end:
/// the decompressed bytes, or the text of the I/O error.
pub uninterp spec fn gzip_decoded(input: Seq<u8>) -> Result<Seq<u8>, Seq<char>>;

/// Text of the error `String::from_utf8` reports for invalid bytes.
pub uninterp spec fn utf8_error_text(input: Seq<u8>) -> Seq<char>;

/// Decompresses a gzip stream.
/// Trusted: `flate2::read::GzDecoder::new` followed by `Read::read_to_end`;
/// the result is named by [`gzip_decoded`].
#[verifier::external_body]
fn gunzip(input: &[u8]) -> (r: Result<Vec<u8>, String>)
    ensures
        match r {
            Ok(v) => gzip_decoded(input@) == Ok::<Seq<u8>, Seq<char>>(v@),
            Err(e) => gzip_decoded(input@) == Err::<Seq<u8>, Seq<char>>(e@),
        },
{
    let mut decoder = flate2::read::GzDecoder::new(input);
    let mut decoded = Vec::new();
    match decoder.read_to_end(&mut decoded) {
        Ok(_) => Ok(decoded),
        Err(err) => Err(err.to_string()),
    }
}

/// Converts bytes to a string when they are valid UTF-8.
/// Trusted: `String::from_utf8`, documented to succeed exactly on valid UTF-8
/// and then to hold the decoded characters.
#[verifier::external_body]
fn utf8_string(bytes: Vec<u8>) -> (r: Result<String, String>)
    ensures
        r is Ok <==> valid_utf8(bytes@),
        match r {
            Ok(s) => s@ == decode_utf8(bytes@),
            Err(e) => e@ == utf8_error_text(bytes@),
        },
{
    String::from_utf8(bytes).map_err(|err| err.to_string())
}

/// Whether the bytes start with the gzip magic number.
pub open spec fn is_gzip(input: Seq<u8>) -> bool {
    input.len() >= 2 && input[0] == 0x1f && input[1] == 0x8b
}

/// The bytes that are decoded as text: the gzip payload or the input itself.
pub open spec fn payload_bytes(input: Seq<u8>) -> Result<Seq<u8>, Seq<char>> {
    if is_gzip(input) {
        match gzip_decoded(input) {
            Ok(v) => Ok(v),
            Err(e) => Err("could not decompress gzip OCEL file: "@ + e),
        }
    } else {
        Ok(input)
    }
}

/// Result of decoding OCEL bytes, as text or as an error message.
pub open spec fn decoded_text(input: Seq<u8>) -> Result<Seq<char>, Seq<char>> {
    match payload_bytes(input) {
        Err(e) => Err(e),
        Ok(bytes) => if valid_utf8(bytes) {
            Ok(decode_utf8(bytes))
        } else {
            Err("OCEL input is not valid UTF-8: "@ + utf8_error_text(bytes))
        },
    }
}

/// Decodes raw file bytes, plain or gzip-compressed, into UTF-8 text.
pub fn decode_ocel_bytes(input: &[u8]) -> (r: Result<String, OcelError>)
    ensures
        match r {
            Ok(s) => decoded_text(input@) == Ok::<Seq<char>, Seq<char>>(s@),
            Err(e) => decoded_text(input@) == Err::<Seq<char>, Seq<char>>(e.message@),
        },
{
    let bytes = if input.len() >= 2 && input[0] == 0x1f && input[1] == 0x8b {
        match gunzip(input) {
            Ok(v) => v,
            Err(e) => {
                let mut m = owned("could not decompress gzip OCEL file: ");
                proof { reveal_strlit("could not decompress gzip OCEL file: "); }
                push_text(&mut m, e.as_str());
                return Err(OcelError::new(m));
            },
        }
    } else {
        vstd::slice::slice_to_vec(input)
    };
    match utf8_string(bytes) {
        Ok(s) => Ok(s),
        Err(e) => {
            let mut m = owned("OCEL input is not valid UTF-8: ");
            proof { reveal_strlit("OCEL input is not valid UTF-8: "); }
            push_text(&mut m, e.as_str());
            Err(OcelError::new(m))
        },
    }
}

} // verus!
