use vstd::prelude::*;
use vstd::utf8::{decode_utf8, valid_utf8};

verus! {

/// The instant that an RFC 2822 date stands for, as seconds since the Unix epoch in UTC and
/// the nanoseconds within that second, or `None` where the text is no such date.
pub uninterp spec fn rfc2822_timestamp(text: Seq<char>) -> Option<(i64, u32)>;

/// Calls `chrono::DateTime::parse_from_rfc2822` and moves the result to UTC.
///
/// Trusted: the result is a function of the text alone, named [`rfc2822_timestamp`]. The
/// instant is handed over as chrono's `timestamp()` and `timestamp_subsec_nanos()`.
#[verifier::external_body]
pub(crate) fn parse_rfc2822(text: &str) -> (parsed: Option<(i64, u32)>)
    ensures
        parsed == rfc2822_timestamp(text@),
{
    match chrono::DateTime::parse_from_rfc2822(text) {
        Ok(found) => Some((found.to_utc().timestamp(), found.to_utc().timestamp_subsec_nanos())),
        Err(_) => None,
    }
}

/// Calls `String::from_utf8`.
///
/// Trusted: the bytes become a string exactly when they are valid UTF-8, and the string then
/// holds the characters that they encode.
#[verifier::external_body]
pub(crate) fn string_from_utf8(bytes: Vec<u8>) -> (text: Option<String>)
    ensures
        text is Some <==> valid_utf8(bytes@),
        text is Some ==> text->0@ == decode_utf8(bytes@),
{
    match String::from_utf8(bytes) {
        Ok(text) => Some(text),
        Err(_) => None,
    }
}

/// Declares `rfc2047_decoder::Error`, the error of the header decoder. Nothing is known of
/// what such an error holds.
#[verifier::external_type_specification]
#[verifier::external_body]
pub struct ExEncodedWordError(rfc2047_decoder::Error);

/// Declares `quoted_printable::QuotedPrintableError`, the error of the body decoder.
/// Nothing is known of what such an error holds.
#[verifier::external_type_specification]
#[verifier::external_body]
pub struct ExQuotedPrintableError(quoted_printable::QuotedPrintableError);

/// The text that a header value stands for once its RFC 2047 encoded words are decoded, an
/// encoded word that is too long being kept as it is written; `None` where the decoder
/// gives up on the value.
pub uninterp spec fn rfc2047_decoded(encoded: Seq<u8>) -> Option<Seq<char>>;

/// Calls `rfc2047_decoder::Decoder::decode`, on a decoder that skips encoded words which are
/// too long.
///
/// Trusted: the outcome is a function of the bytes alone, named [`rfc2047_decoded`].
#[verifier::external_body]
pub(crate) fn decode_encoded_words(encoded: &[u8]) -> (decoded: Result<
    String,
    rfc2047_decoder::Error,
>)
    ensures
        match decoded {
            Ok(text) => rfc2047_decoded(encoded@) == Some(text@),
            Err(_) => rfc2047_decoded(encoded@) is None,
        },
{
    rfc2047_decoder::Decoder::new().too_long_encoded_word_strategy(
        rfc2047_decoder::RecoverStrategy::Skip,
    ).decode(encoded)
}

/// The bytes that quoted-printable text stands for under robust parsing, or `None` where
/// the decoder gives up on it.
pub uninterp spec fn quoted_printable_decoded(encoded: Seq<u8>) -> Option<Seq<u8>>;

/// Calls `quoted_printable::decode` in its robust mode.
///
/// Trusted: the outcome is a function of the bytes alone, named
/// [`quoted_printable_decoded`].
#[verifier::external_body]
pub(crate) fn decode_quoted_printable(encoded: &[u8]) -> (decoded: Result<
    Vec<u8>,
    quoted_printable::QuotedPrintableError,
>)
    ensures
        match decoded {
            Ok(bytes) => quoted_printable_decoded(encoded@) == Some(bytes@),
            Err(_) => quoted_printable_decoded(encoded@) is None,
        },
{
    quoted_printable::decode(encoded, quoted_printable::ParseMode::Robust)
}

/// A text without its line feeds.
pub open spec fn without_line_feeds(text: Seq<char>) -> Seq<char> {
    text.filter(|c: char| c != '\n')
}

/// Calls `str::replace` to replace every line feed by nothing.
///
/// Trusted: what is left is the text's characters other than line feeds, in their order.
#[verifier::external_body]
pub(crate) fn remove_line_feeds(text: &str) -> (stripped: String)
    ensures
        stripped@ == without_line_feeds(text@),
{
    text.replace("\n", "")
}

/// The instant that the raw value of a date header stands for.
pub open spec fn date_value(raw: Seq<u8>) -> Option<(i64, u32)> {
    if valid_utf8(raw) {
        rfc2822_timestamp(decode_utf8(raw))
    } else {
        None
    }
}

/// Reads the raw value of a date header.
pub fn parse_date(raw: &[u8]) -> (parsed: Option<(i64, u32)>)
    ensures
        parsed == date_value(raw@),
{
    match string_from_utf8(vstd::slice::slice_to_vec(raw)) {
        Some(text) => parse_rfc2822(text.as_str()),
        None => None,
    }
}

} // verus!
