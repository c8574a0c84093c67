//! JSON request and response bodies.
use vstd::prelude::*;
use vstd::utf8::*;

use crate::extract::host::{is_visible_ascii, visible_ascii, visible_string};
use crate::router::fix::{eq_ignore_ascii_case, eq_ignore_case};

verus! {

/// Json can be used as an extractor, or response type.
///
/// When used as an extractor, the request body is deserialized into the
/// inner type `T`; returned, `T` is serialized into the response body with
/// the `Content-Type` header set to `application/json`.
#[derive(Debug, Clone, Copy, Default)]
pub struct Json<T>(pub T);

/// The type, subtype and suffix that `mime` reads from a media type, if it
/// reads one.
pub uninterp spec fn mime_parts(s: Seq<char>) -> Option<(Seq<char>, Seq<char>, Option<Seq<char>>)>;

/// Parses a media type with `str::parse::<mime::Mime>` and gives its type,
/// subtype and suffix.
///
/// Trusted: the parts are those that `mime_parts` names for the string.
#[verifier::external_body]
fn parse_mime(s: &str) -> (r: Option<(String, String, Option<String>)>)
    ensures
        match (r, mime_parts(s@)) {
            (Some((t, st, sf)), Some((vt, vst, vsf))) => t@ == vt && st@ == vst && match (sf, vsf) {
                (Some(a), Some(b)) => a@ == b,
                (None, None) => true,
                _ => false,
            },
            (None, None) => true,
            _ => false,
        },
{
    let m = s.parse::<mime::Mime>().ok()?;
    let suffix = m.suffix().map(|n| n.as_str().to_string());
    Some((m.type_().as_str().to_string(), m.subtype().as_str().to_string(), suffix))
}

/// The bytes of `application`.
pub open spec fn application_name() -> Seq<u8> {
    seq![0x61u8, 0x70, 0x70, 0x6c, 0x69, 0x63, 0x61, 0x74, 0x69, 0x6f, 0x6e]
}

/// The bytes of `json`.
pub open spec fn json_name() -> Seq<u8> {
    seq![0x6au8, 0x73, 0x6f, 0x6e]
}

/// A `Content-Type` header value names JSON: it is visible ASCII, `mime`
/// reads it, its type is `application` and its subtype or suffix `json`, up
/// to ASCII case.
pub open spec fn is_json_content_type(v: Seq<u8>) -> bool {
    visible_ascii(v) && match mime_parts(decode_utf8(v)) {
        Some((t, st, sf)) => eq_ignore_case(encode_utf8(t), application_name()) && (eq_ignore_case(
            encode_utf8(st),
            json_name(),
        ) || (sf matches Some(x) && eq_ignore_case(encode_utf8(x), json_name()))),
        None => false,
    }
}

/// The request's `Content-Type` header, given by its value, names JSON.
pub fn json_content_type(content_type: Option<&[u8]>) -> (r: bool)
    ensures
        r == (content_type matches Some(v) && is_json_content_type(v@)),
{
    let v = match content_type {
        Some(v) => v,
        None => return false,
    };
    if !is_visible_ascii(v) {
        return false;
    }
    let s = visible_string(v);
    proof {
        crate::extract::host::lemma_visible_valid(v@);
        decode_utf8_encode_utf8(v@);
        encode_utf8_decode_utf8(s@);
    }
    let parts = parse_mime(s.as_str());
    match parts {
        None => false,
        Some((t, st, sf)) => {
            let application: [u8; 11] = [0x61, 0x70, 0x70, 0x6c, 0x69, 0x63, 0x61, 0x74, 0x69, 0x6f, 0x6e];
            let json: [u8; 4] = [0x6a, 0x73, 0x6f, 0x6e];
            assert(application@ =~= application_name());
            assert(json@ =~= json_name());
            let tb = crate::text::as_str_bytes(&t).as_bytes();
            let stb = crate::text::as_str_bytes(&st).as_bytes();
            if !eq_ignore_ascii_case(tb, &application) {
                return false;
            }
            if eq_ignore_ascii_case(stb, &json) {
                return true;
            }
            match sf {
                Some(x) => {
                    let xb = crate::text::as_str_bytes(&x).as_bytes();
                    eq_ignore_ascii_case(xb, &json)
                },
                None => false,
            }
        },
    }
}

} // verus!

verus! {

/// The kind of error that deserializing a JSON body reports.
#[derive(Debug, Clone, Copy, PartialEq, Eq, Structural)]
pub enum JsonErrorCategory {
    /// Reading the input failed.
    Io,
    /// The input is not syntactically valid JSON.
    Syntax,
    /// The input is valid JSON but does not fit the type.
    Data,
    /// The input ended in the middle of a value.
    Eof,
}

/// Why a JSON body is refused.
#[derive(Debug, Clone, Copy, PartialEq, Eq, Structural)]
pub enum JsonRejectionKind {
    /// The `Content-Type` names no JSON.
    MissingJsonContentType,
    /// The body is no JSON, or ends early.
    JsonSyntaxError,
    /// The body is JSON of another shape.
    JsonDataError,
}

/// How a JSON body is refused, if it is: without a JSON content type it is
/// not read at all; then a data error refuses it as such, and every other
/// error as a syntax error.
pub open spec fn spec_json_rejection(
    content_type_ok: bool,
    error: Option<JsonErrorCategory>,
) -> Option<JsonRejectionKind> {
    if !content_type_ok {
        Some(JsonRejectionKind::MissingJsonContentType)
    } else {
        match error {
            None => None,
            Some(JsonErrorCategory::Data) => Some(JsonRejectionKind::JsonDataError),
            Some(_) => Some(JsonRejectionKind::JsonSyntaxError),
        }
    }
}

/// How a JSON body is refused, given whether its content type names JSON
/// and the kind of error that deserializing it reported, if any.
pub fn json_rejection(content_type_ok: bool, error: Option<JsonErrorCategory>) -> (r: Option<
    JsonRejectionKind,
>)
    ensures
        r == spec_json_rejection(content_type_ok, error),
{
    if !content_type_ok {
        return Some(JsonRejectionKind::MissingJsonContentType);
    }
    match error {
        None => None,
        Some(JsonErrorCategory::Data) => Some(JsonRejectionKind::JsonDataError),
        Some(_) => Some(JsonRejectionKind::JsonSyntaxError),
    }
}

impl JsonRejectionKind {
    /// The status code of the refusal: 415, 400 or 422.
    pub fn status_code(&self) -> (r: u16)
        ensures
            r == match self {
                JsonRejectionKind::MissingJsonContentType => 415u16,
                JsonRejectionKind::JsonSyntaxError => 400u16,
                JsonRejectionKind::JsonDataError => 422u16,
            },
    {
        match self {
            JsonRejectionKind::MissingJsonContentType => 415,
            JsonRejectionKind::JsonSyntaxError => 400,
            JsonRejectionKind::JsonDataError => 422,
        }
    }
}

} // verus!
