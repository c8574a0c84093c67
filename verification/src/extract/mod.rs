//! Types that extract values from a request.
use vstd::prelude::*;
use vstd::string::StringSliceAdditionalSpecFns;

pub mod host;

use vstd::string::StringExecFns;

use crate::reader::UriReader;

verus! {

/// The path of the request uri.
#[derive(Clone, Debug, PartialEq, Eq, PartialOrd)]
pub struct Route(pub String);

/// The remainder of the url matched by a wildcard route.
pub struct Splat(pub String);

impl Splat {
    /// The remainder of the uri from the reader's cursor.
    pub fn from_reader(reader: &UriReader) -> (r: Splat)
        requires
            reader.cursor <= reader.bytes().len(),
            reader.boundary(reader.cursor as int),
        ensures
            vstd::utf8::encode_utf8(r.0@) == reader.bytes().subrange(
                reader.cursor as int,
                reader.bytes().len() as int,
            ),
    {
        let rest = reader.read_to_end();
        proof {
            crate::text::lemma_str_view(rest);
            vstd::utf8::encode_utf8_decode_utf8(rest@);
            vstd::utf8::decode_utf8_encode_utf8(rest.spec_bytes());
        }
        Splat(rest.to_owned())
    }
}

/// Path parameters deserialized into `T`.
#[derive(Debug)]
pub struct Path<T>(pub T);

/// A query string deserialized into `T`.
#[derive(Debug, Clone, Copy, Default)]
pub struct Query<T>(pub T);

/// A typed header value.
#[derive(Debug, Clone, Copy)]
pub struct TypedHeader<T>(pub T);

/// Why a query string could not be deserialized: the expected type's name
/// and the error's message.
#[derive(Debug)]
pub struct FailedToDeserializeQueryString {
    error: String,
    expected_type: String,
}

impl FailedToDeserializeQueryString {
    /// The expected type's name.
    pub closed spec fn expected_type(&self) -> Seq<char> {
        self.expected_type@
    }

    /// The error's message.
    pub closed spec fn error(&self) -> Seq<char> {
        self.error@
    }

    /// The rejection for a query string that did not deserialize into the
    /// type named `expected_type`, with the error's message.
    pub fn __private_new(expected_type: &str, error: String) -> (r: Self)
        ensures
            r.expected_type() == expected_type@,
            r.error() == error@,
    {
        FailedToDeserializeQueryString { error, expected_type: expected_type.to_owned() }
    }

    /// The message of the rejection: "Failed to deserialize query string.
    /// Expected something of type `T`. Error: E".
    pub fn message(&self) -> (r: String)
        ensures
            r@ == "Failed to deserialize query string. Expected something of type `"@
                + self.expected_type() + "`. Error: "@ + self.error(),
    {

        let mut s = String::from_str("Failed to deserialize query string. Expected something of type `");
        s.append(self.expected_type.as_str());
        s.append("`. Error: ");
        s.append(self.error.as_str());
        s
    }
}

} // verus!
