//! Client-side codec for the handler protocol spoken between a web front end
//! and its backend workers: decoding inbound request envelopes (typed-value
//! framed headers and body, with an optional JSON sub-body) and encoding
//! outbound replies (raw or full HTTP-framed).
use vstd::prelude::*;

pub mod headers;
pub mod jsonval;
pub mod reply;
pub mod request;
pub mod typed_value;

verus! {

/// Why a decode or encode call was aborted. Every violation is fatal for the
/// current call: no partial result is ever returned.
#[derive(Clone, Copy, Debug, PartialEq, Eq, Structural)]
pub enum FormatError {
    /// The length prefix of a typed value is not a decimal number followed by
    /// a colon.
    Length,
    /// The length prefix declares more bytes than remain in the buffer, or
    /// the tag byte after the payload is missing.
    Truncated,
    /// The tag byte after a payload selects no known variant.
    Tag,
    /// The payload of an integer, boolean or null value is malformed, or a
    /// dictionary key is not a string value.
    Payload,
    /// A value was asked to be encoded that the outbound format does not
    /// carry.
    Unencodable,
    /// No space terminates the sender uuid.
    Uuid,
    /// No space terminates the connection id.
    Id,
    /// No space terminates the request path.
    Path,
    /// A token or header text is not valid UTF-8.
    Utf8,
    /// Nothing stands where the headers value was expected.
    EmptyHeaders,
    /// Nothing stands where the body value was expected.
    EmptyBody,
    /// The headers value is neither a dictionary nor a JSON object in a
    /// string, or a header value is not a string or list of strings.
    HeaderShape,
    /// The body value is not the string variant.
    BodyShape,
    /// The method is JSON but the body is not a JSON object.
    JsonBody,
}

/// Relies on String::from_utf8: it succeeds exactly on the byte strings
/// that vstd's UTF-8 model accepts, and decodes them as that model does.
#[verifier::external_body]
pub fn string_from_utf8(bytes: Vec<u8>) -> (r: Option<String>)
    ensures
        match r {
            Some(s) => vstd::utf8::valid_utf8(bytes@) && s@ == vstd::utf8::decode_utf8(bytes@),
            None => !vstd::utf8::valid_utf8(bytes@),
        },
{
    match String::from_utf8(bytes) {
        Ok(s) => Some(s),
        Err(_) => None,
    }
}

} // verus!
