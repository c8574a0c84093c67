//! Reading HTTP requests: the request body, and the decisions taken while
//! bytes come in from a connection: whether a request head is complete, how
//! much of the buffer is its body, and which bytes belong to the requests
//! pipelined after it.
use vstd::prelude::*;
use vstd::string::StringSliceAdditionalSpecFns;

verus! {

/// The largest request accepted, in bytes.
pub const MAX_REQUEST_SIZE: usize = 10485760;

/// The size of one read from the connection.
pub const REQUEST_BUFFER_SIZE: usize = 4096;

/// The most headers a request may have.
pub const MAX_HEADERS: usize = 128;

/// The request body.
#[derive(Debug, Clone, Copy)]
pub struct Body<'a>(&'a [u8]);

impl<'a> Body<'a> {
    /// The bytes of the body.
    pub closed spec fn bytes(&self) -> Seq<u8> {
        self.0@
    }

    /// Create a request body from a slice.
    pub fn from_slice(slice: &'a [u8]) -> (r: Self)
        ensures
            r.bytes() == slice@,
    {
        Body(slice)
    }

    /// Returns the request body as a slice.
    pub fn as_slice(&self) -> (r: &[u8])
        ensures
            r@ == self.bytes(),
    {
        self.0
    }

    /// Returns the body length in bytes.
    pub fn len(&self) -> (r: usize)
        ensures
            r == self.bytes().len(),
    {
        self.0.len()
    }

    /// Returns true if body is empty.
    pub fn is_empty(&self) -> (r: bool)
        ensures
            r == (self.bytes().len() == 0),
    {
        self.0.len() == 0
    }
}

#[verifier::external_type_specification]
#[verifier::external_body]
pub struct ExHttparseError(httparse::Error);

#[verifier::external_type_specification]
#[verifier::external_body]
pub struct ExMethod(http::Method);

#[verifier::external_type_specification]
#[verifier::external_body]
#[verifier::reject_recursive_types(T)]
pub struct ExHttpRequest<T>(http::Request<T>);

/// Why no request could be read.
#[derive(Debug)]
pub enum ParseRequestError {
    /// The connection closed before a complete request came.
    TcpStreamClosed,
    /// The connection closed before any data came.
    TcpStreamClosedWithoutData,
    /// The request head is malformed.
    HttpParseError(httparse::Error),
    /// The request is larger than [`MAX_REQUEST_SIZE`].
    RequestTooLarge,
    /// The method is not a valid token.
    UnknownMethod,
}

/// One or more HTTP requests: the result of reading the first, and the
/// bytes of those pipelined after it, which seed the next handler.
pub struct PipelinedRequests<'a> {
    request: Result<http::Request<Body<'a>>, ParseRequestError>,
    next: Vec<u8>,
}

impl<'a> PipelinedRequests<'a> {
    /// The result of reading the first request.
    pub closed spec fn request(&self) -> Result<http::Request<Body<'a>>, ParseRequestError> {
        self.request
    }

    /// The bytes of the requests pipelined after the first.
    pub closed spec fn next(&self) -> Seq<u8> {
        self.next@
    }

    /// The result of reading the first request, and the bytes of those
    /// pipelined after it.
    pub fn pipeline(self) -> (r: (Result<http::Request<Body<'a>>, ParseRequestError>, Vec<u8>))
        ensures
            r.0 == self.request(),
            r.1@ == self.next(),
    {
        (self.request, self.next)
    }

    /// One complete request, with no pipelined requests after it.
    pub fn from_complete(request: http::Request<Body<'a>>) -> (r: Self)
        ensures
            r.request() == Ok::<http::Request<Body<'a>>, ParseRequestError>(request),
            r.next().len() == 0,
    {
        PipelinedRequests { request: Ok(request), next: Vec::new() }
    }

    /// One complete request, and the bytes of the requests after it.
    pub fn from_pipeline(request: http::Request<Body<'a>>, next: Vec<u8>) -> (r: Self)
        ensures
            r.request() == Ok::<http::Request<Body<'a>>, ParseRequestError>(request),
            r.next() == next@,
    {
        PipelinedRequests { request: Ok(request), next }
    }

    /// A first request that could not be read: the pipelined requests after
    /// it are not looked at.
    pub fn from_err(err: ParseRequestError) -> (r: Self)
        ensures
            r.request() == Err::<http::Request<Body<'a>>, ParseRequestError>(err),
            r.next().len() == 0,
    {
        PipelinedRequests { request: Err(err), next: Vec::new() }
    }
}

/// A complete request head: where the body starts in the buffer, the
/// method, the path, and the headers by name and value.
pub struct RequestHead {
    pub offset: usize,
    pub method: String,
    pub path: String,
    pub headers: Vec<(String, Vec<u8>)>,
}

/// What a request head holds.
pub ghost struct HeadView {
    pub offset: int,
    pub method: Seq<char>,
    pub path: Seq<char>,
    pub headers: Seq<(Seq<char>, Seq<u8>)>,
}

impl RequestHead {
    /// The head's fields as values.
    pub closed spec fn view(&self) -> HeadView {
        HeadView {
            offset: self.offset as int,
            method: self.method@,
            path: self.path@,
            headers: self.headers@.map_values(|h: (String, Vec<u8>)| (h.0@, h.1@)),
        }
    }
}

/// What httparse reads from `buf` with room for `max_headers` headers: a
/// complete head, `None` where more bytes are needed, or the parse error.
pub uninterp spec fn httparse_request(buf: Seq<u8>, max_headers: usize) -> Result<Option<HeadView>, httparse::Error>;

/// Parses a request head with `httparse::Request::parse`, with room for
/// `max_headers` headers.
///
/// Trusted: the result is the one that `httparse_request` names for the
/// buffer and the header room, and the body offset of a complete head lies
/// in the buffer (httparse returns the count of bytes it consumed).
#[verifier::external_body]
fn parse_head(buf: &[u8], max_headers: usize) -> (r: Result<Option<RequestHead>, httparse::Error>)
    ensures
        match (r, httparse_request(buf@, max_headers)) {
            (Ok(Some(h)), Ok(Some(v))) => h.view() == v && h.offset <= buf@.len(),
            (Ok(None), Ok(None)) => true,
            (Err(e), Err(f)) => e == f,
            _ => false,
        },
{
    let mut headers = vec![httparse::EMPTY_HEADER; max_headers];
    let mut req = httparse::Request::new(&mut headers);
    match req.parse(buf) {
        Ok(httparse::Status::Complete(offset)) => Ok(Some(RequestHead {
            offset,
            method: req.method.unwrap_or_default().to_string(),
            path: req.path.unwrap_or_default().to_string(),
            headers: req.headers.iter().map(|h| (h.name.to_string(), h.value.to_vec())).collect(),
        })),
        Ok(httparse::Status::Partial) => Ok(None),
        Err(e) => Err(e),
    }
}

/// A method token byte, as `http` accepts it.
pub open spec fn is_method_char(b: u8) -> bool {
    ||| b == 0x21 || b == 0x2a || b == 0x2b || b == 0x2d || b == 0x2e
    ||| (0x30 <= b <= 0x39) || (0x41 <= b <= 0x5a) || (0x61 <= b <= 0x7a)
    ||| b == 0x5e || b == 0x5f || b == 0x60 || b == 0x7c || b == 0x7e
}

/// The bytes form a method that `http` accepts: a nonempty token.
pub open spec fn is_method(bytes: Seq<u8>) -> bool {
    bytes.len() > 0 && forall|i: int| 0 <= i < bytes.len() ==> is_method_char(#[trigger] bytes[i])
}

/// The method that `http` makes of the bytes.
pub uninterp spec fn http_method(bytes: Seq<u8>) -> http::Method;

/// Makes an `http::Method` of the string with `http::Method::try_from`.
///
/// Trusted: `http` accepts exactly the nonempty strings of token bytes
/// (its method table), and the method is the one `http_method` names for
/// the bytes.
#[verifier::external_body]
fn method_from_str(s: &str) -> (r: Option<http::Method>)
    ensures
        r is Some <==> is_method(s.spec_bytes()),
        r matches Some(m) ==> m == http_method(s.spec_bytes()),
{
    http::Method::try_from(s).ok()
}

/// One attempt to read a request head from the buffered bytes.
pub enum ParseStep {
    /// The head is complete.
    Complete(RequestHead),
    /// More bytes are needed.
    Partial,
    /// The request cannot be read.
    Failed(ParseRequestError),
}

/// Tries to read a request head from `buffer`, with room for
/// [`MAX_HEADERS`] headers.
pub fn parse_step(buffer: &[u8]) -> (r: ParseStep)
    ensures
        match (r, httparse_request(buffer@, MAX_HEADERS)) {
            (ParseStep::Complete(h), Ok(Some(v))) => h.view() == v && h.offset <= buffer@.len(),
            (ParseStep::Partial, Ok(None)) => true,
            (ParseStep::Failed(ParseRequestError::HttpParseError(e)), Err(f)) => e == f,
            _ => false,
        },
{
    match parse_head(buffer, MAX_HEADERS) {
        Ok(Some(head)) => ParseStep::Complete(head),
        Ok(None) => ParseStep::Partial,
        Err(e) => ParseStep::Failed(ParseRequestError::HttpParseError(e)),
    }
}

/// What a read from the connection means for a buffer that held `buffered`
/// bytes before it: `read` is the count of bytes read, `None` where the read
/// failed. A failed or empty read closes the request, without data where
/// nothing was buffered; a buffer that grows past [`MAX_REQUEST_SIZE`] makes
/// the request too large. `None` lets the reading go on.
pub fn after_read(read: Option<usize>, buffered: usize) -> (r: Option<ParseRequestError>)
    requires
        read matches Some(n) ==> buffered + n <= usize::MAX,
    ensures
        match read {
            None => r == Some(closed_error(buffered)),
            Some(n) => if n == 0 {
                r == Some(closed_error(buffered))
            } else if buffered + n > MAX_REQUEST_SIZE {
                r == Some(ParseRequestError::RequestTooLarge)
            } else {
                r is None
            },
        },
{
    match read {
        None => Some(closed(buffered)),
        Some(n) => {
            if n == 0 {
                Some(closed(buffered))
            } else if buffered + n > MAX_REQUEST_SIZE {
                Some(ParseRequestError::RequestTooLarge)
            } else {
                None
            }
        },
    }
}

/// The error for a connection that closed with `buffered` bytes read.
pub open spec fn closed_error(buffered: usize) -> ParseRequestError {
    if buffered == 0 {
        ParseRequestError::TcpStreamClosedWithoutData
    } else {
        ParseRequestError::TcpStreamClosed
    }
}

fn closed(buffered: usize) -> (r: ParseRequestError)
    ensures
        r == closed_error(buffered),
{
    if buffered == 0 {
        ParseRequestError::TcpStreamClosedWithoutData
    } else {
        ParseRequestError::TcpStreamClosed
    }
}

/// A decimal digit.
pub open spec fn is_digit(b: u8) -> bool {
    0x30 <= b <= 0x39
}

/// The value of decimal digits.
pub open spec fn decimal_value(s: Seq<u8>) -> nat
    decreases s.len(),
{
    if s.len() == 0 {
        0
    } else {
        decimal_value(s.drop_last()) * 10 + (s.last() - 0x30) as nat
    }
}

/// All bytes are decimal digits.
pub open spec fn all_digits(s: Seq<u8>) -> bool {
    forall|i: int| 0 <= i < s.len() ==> is_digit(#[trigger] s[i])
}

/// The bytes past an optional leading `+`.
pub open spec fn unsigned_digits(s: Seq<u8>) -> Seq<u8> {
    if s.len() > 0 && s[0] == 0x2b {
        s.drop_first()
    } else {
        s
    }
}

/// What `str::parse::<usize>` gives for the bytes: an optional `+`, then
/// one or more decimal digits whose value fits a `usize`.
pub open spec fn parse_usize_spec(s: Seq<u8>) -> Option<usize> {
    let digits = unsigned_digits(s);
    if digits.len() > 0 && all_digits(digits) && decimal_value(digits) <= usize::MAX {
        Some(decimal_value(digits) as usize)
    } else {
        None
    }
}

/// Parses a `usize` as `str::parse` does: an optional `+`, then decimal
/// digits; `None` on anything else or on overflow.
pub fn parse_usize(s: &[u8]) -> (r: Option<usize>)
    ensures
        r == parse_usize_spec(s@),
{
    let start: usize = if s.len() > 0 && s[0] == 0x2b {
        1
    } else {
        0
    };
    let ghost digits = unsigned_digits(s@);
    assert(digits == s@.subrange(start as int, s@.len() as int));
    if start >= s.len() {
        return None;
    }
    let mut value: usize = 0;
    let mut i: usize = start;
    while i < s.len()
        invariant
            start <= i <= s@.len(),
            digits == s@.subrange(start as int, s@.len() as int),
            digits == unsigned_digits(s@),
            forall|k: int| start <= k < i ==> is_digit(#[trigger] s@[k]),
            value == decimal_value(s@.subrange(start as int, i as int)),
        decreases s@.len() - i,
    {
        let c = s[i];
        if c < 0x30 || c > 0x39 {
            assert(!is_digit(digits[i - start]));
            assert(!all_digits(digits));
            return None;
        }
        let d = (c - 0x30) as usize;
        assert(s@.subrange(start as int, i + 1).drop_last() =~= s@.subrange(start as int, i as int));
        if value > (usize::MAX - d) / 10 {
            proof {
                let pre = s@.subrange(start as int, i + 1);
                assert(decimal_value(pre) == value * 10 + d);
                assert(value * 10 + d > usize::MAX) by (nonlinear_arith)
                    requires
                        value > (usize::MAX - d) / 10,
                        d <= 9,
                ;
                assert(pre =~= digits.subrange(0, pre.len() as int));
                if all_digits(digits) {
                    lemma_decimal_overflow(pre, digits);
                }
            }
            return None;
        }
        value = value * 10 + d;
        i += 1;
    }
    assert(s@.subrange(start as int, i as int) =~= digits);
    assert forall|k: int| 0 <= k < digits.len() implies is_digit(#[trigger] digits[k]) by {
        assert(digits[k] == s@[start + k]);
    }
    assert(all_digits(digits));
    Some(value)
}

/// A prefix of digits whose value overflows makes the whole value overflow.
proof fn lemma_decimal_overflow(pre: Seq<u8>, all: Seq<u8>)
    requires
        pre.len() <= all.len(),
        pre == all.subrange(0, pre.len() as int),
        decimal_value(pre) > usize::MAX,
        all_digits(all),
    ensures
        decimal_value(all) > usize::MAX,
    decreases all.len() - pre.len(),
{
    if pre.len() < all.len() {
        let next = all.subrange(0, (pre.len() + 1) as int);
        assert(next.drop_last() =~= pre);
        assert(is_digit(next.last()));
        assert(decimal_value(next) >= decimal_value(pre) * 10) by (nonlinear_arith)
            requires
                decimal_value(next) == decimal_value(pre) * 10 + (next.last() - 0x30),
                next.last() >= 0x30,
        ;
        lemma_decimal_overflow(next, all);
    } else {
        assert(pre =~= all);
    }
}

/// A number written in decimal, as a response's content length is, reads
/// back as the same number.
pub proof fn law_decimal_round_trip(n: usize)
    ensures
        parse_usize_spec(crate::supervisor::decimal(n as nat)) == Some(n),
{
    lemma_decimal_digits(n as nat);
    let d = crate::supervisor::decimal(n as nat);
    assert(d[0] != 0x2b);
    assert(unsigned_digits(d) == d);
}

/// The decimal digits of `n` are digits, and their value is `n`.
pub proof fn lemma_decimal_digits(n: nat)
    ensures
        crate::supervisor::decimal(n).len() > 0,
        all_digits(crate::supervisor::decimal(n)),
        decimal_value(crate::supervisor::decimal(n)) == n,
    decreases n,
{
    let d = crate::supervisor::decimal(n);
    if n < 10 {
        assert(d.drop_last() =~= Seq::<u8>::empty());
        assert(d.last() == (n + 0x30) as u8);
        assert(decimal_value(d) == decimal_value(d.drop_last()) * 10 + (d.last() - 0x30) as nat);
    } else {
        lemma_decimal_digits(n / 10);
        let pre = crate::supervisor::decimal(n / 10);
        assert(d.drop_last() =~= pre);
        assert forall|i: int| 0 <= i < d.len() implies is_digit(#[trigger] d[i]) by {
            if i < d.len() - 1 {
                assert(d[i] == pre[i]);
            }
        }
        assert(d.last() == (n % 10 + 0x30) as u8);
        assert((d.last() - 0x30) as nat == n % 10);
        assert((n / 10) * 10 + n % 10 == n) by (nonlinear_arith);
        assert(decimal_value(d) == decimal_value(pre) * 10 + (d.last() - 0x30) as nat);
    }
}

/// The bytes of `content-length`.
pub open spec fn content_length_name() -> Seq<u8> {
    seq![0x63u8, 0x6f, 0x6e, 0x74, 0x65, 0x6e, 0x74, 0x2d, 0x6c, 0x65, 0x6e, 0x67, 0x74, 0x68]
}

/// The bytes of `content-length`.
pub(crate) fn content_length_bytes() -> (r: [u8; 14])
    ensures
        r@ == content_length_name(),
{
    let r: [u8; 14] = [0x63, 0x6f, 0x6e, 0x74, 0x65, 0x6e, 0x74, 0x2d, 0x6c, 0x65, 0x6e, 0x67, 0x74, 0x68];
    assert(r@ =~= content_length_name());
    r
}

/// The header name is `content-length` up to ASCII case. For a header name
/// this is what lowercasing it and comparing gives: no other char lowercases
/// to one of these letters.
pub open spec fn is_content_length(name: Seq<char>) -> bool {
    crate::router::fix::eq_ignore_case(vstd::utf8::encode_utf8(name), content_length_name())
}

/// The content length that the headers give: the value of the last
/// `content-length` header, if any.
pub open spec fn spec_content_length(headers: Seq<(Seq<char>, Seq<u8>)>) -> Option<usize>
    decreases headers.len(),
{
    if headers.len() == 0 {
        None
    } else if is_content_length(headers.last().0) {
        parse_usize_spec(headers.last().1)
    } else {
        spec_content_length(headers.drop_last())
    }
}

/// Each `content-length` header holds a number that parses.
pub open spec fn content_lengths_parse(headers: Seq<(Seq<char>, Seq<u8>)>) -> bool {
    forall|i: int|
        0 <= i < headers.len() && is_content_length(#[trigger] headers[i].0) ==> parse_usize_spec(
            headers[i].1,
        ) is Some
}

/// The content length that the headers give: the value of the last
/// `content-length` header, if any.
pub fn content_length(headers: &Vec<(String, Vec<u8>)>) -> (r: Option<usize>)
    requires
        content_lengths_parse(headers@.map_values(|h: (String, Vec<u8>)| (h.0@, h.1@))),
    ensures
        r == spec_content_length(headers@.map_values(|h: (String, Vec<u8>)| (h.0@, h.1@))),
{
    let ghost hs = headers@.map_values(|h: (String, Vec<u8>)| (h.0@, h.1@));
    let name = crate::requests::content_length_bytes();
    let mut found: Option<usize> = None;
    let mut i: usize = 0;
    while i < headers.len()
        invariant
            i <= headers@.len(),
            hs == headers@.map_values(|h: (String, Vec<u8>)| (h.0@, h.1@)),
            content_lengths_parse(hs),
            name@ == content_length_name(),
            found == spec_content_length(hs.subrange(0, i as int)),
        decreases headers@.len() - i,
    {
        let h = &headers[i];
        let n = crate::text::as_str_bytes(&h.0).as_bytes();
        assert(hs.subrange(0, i + 1).drop_last() =~= hs.subrange(0, i as int));
        assert(hs[i as int] == (h.0@, h.1@));
        if crate::router::fix::eq_ignore_ascii_case(n, &name) {
            found = parse_usize(h.1.as_slice());
        }
        i += 1;
    }
    assert(hs.subrange(0, i as int) =~= hs);
    found
}

/// Each `content-length` header holds a number that parses.
pub fn content_lengths_ok(headers: &Vec<(String, Vec<u8>)>) -> (r: bool)
    ensures
        r == content_lengths_parse(headers@.map_values(|h: (String, Vec<u8>)| (h.0@, h.1@))),
{
    let ghost hs = headers@.map_values(|h: (String, Vec<u8>)| (h.0@, h.1@));
    let name = crate::requests::content_length_bytes();
    let mut i: usize = 0;
    while i < headers.len()
        invariant
            i <= headers@.len(),
            hs == headers@.map_values(|h: (String, Vec<u8>)| (h.0@, h.1@)),
            name@ == content_length_name(),
            forall|k: int|
                0 <= k < i && is_content_length(#[trigger] hs[k].0) ==> parse_usize_spec(hs[k].1) is Some,
        decreases headers@.len() - i,
    {
        let h = &headers[i];
        let n = crate::text::as_str_bytes(&h.0).as_bytes();
        assert(hs[i as int] == (h.0@, h.1@));
        if crate::router::fix::eq_ignore_ascii_case(n, &name) {
            if parse_usize(h.1.as_slice()).is_none() {
                assert(is_content_length(hs[i as int].0) && parse_usize_spec(hs[i as int].1) is None);
                return false;
            }
        }
        i += 1;
    }
    true
}

/// The method bytes form a token that `http` accepts.
pub fn is_method_token(bytes: &[u8]) -> (r: bool)
    ensures
        r == is_method(bytes@),
{
    if bytes.len() == 0 {
        return false;
    }
    let mut i: usize = 0;
    while i < bytes.len()
        invariant
            i <= bytes@.len(),
            forall|k: int| 0 <= k < i ==> is_method_char(#[trigger] bytes@[k]),
        decreases bytes@.len() - i,
    {
        let b = bytes[i];
        let ok = b == 0x21 || b == 0x2a || b == 0x2b || b == 0x2d || b == 0x2e || (0x30 <= b && b <= 0x39)
            || (0x41 <= b && b <= 0x5a) || (0x61 <= b && b <= 0x7a) || b == 0x5e || b == 0x5f || b == 0x60
            || b == 0x7c || b == 0x7e;
        if !ok {
            assert(!is_method_char(bytes@[i as int]));
            return false;
        }
        i += 1;
    }
    true
}

/// Planning the request would panic: its method is a token, so its
/// headers are read, and a `content-length` header does not parse.
pub fn plan_panics(head: &RequestHead) -> (r: bool)
    ensures
        r == (is_method(vstd::utf8::encode_utf8(head.view().method)) && !content_lengths_parse(
            head.view().headers,
        )),
{
    let m = crate::text::as_str_bytes(&head.method).as_bytes();
    is_method_token(m) && !content_lengths_ok(&head.headers)
}

/// How much of the buffer a request's body takes, once its head ends at
/// `offset`.
pub enum Framing {
    /// The body is the buffer from the offset on; the bytes from `next` on,
    /// if any, belong to the requests pipelined after it. (The body keeps
    /// those bytes too.)
    Body { next: Option<usize> },
    /// The body is the buffer from the offset on, once `missing` more bytes
    /// are read into it.
    ReadMore { missing: usize },
    /// The request has no body; the bytes from `next` on, if any, belong to
    /// the requests pipelined after it.
    NoBody { next: Option<usize> },
}

/// How a buffer of `len` bytes, whose request head ends at `offset`, holds
/// the body of `content_length` bytes, if the request has one.
pub fn frame_body(len: usize, offset: usize, content_length: Option<usize>) -> (r: Framing)
    requires
        offset <= len,
    ensures
        match content_length {
            Some(cl) => if len - offset == cl {
                r == Framing::Body { next: None }
            } else if len - offset > cl {
                r == Framing::Body { next: Some((offset + cl) as usize) }
            } else {
                r == Framing::ReadMore { missing: (cl - (len - offset)) as usize }
            },
            None => if len == offset {
                r == Framing::NoBody { next: None }
            } else {
                r == Framing::NoBody { next: Some(offset) }
            },
        },
{
    let rest = len - offset;
    match content_length {
        Some(cl) => {
            if rest == cl {
                Framing::Body { next: None }
            } else if rest > cl {
                Framing::Body { next: Some(offset + cl) }
            } else {
                Framing::ReadMore { missing: cl - rest }
            }
        },
        None => {
            if rest == 0 {
                Framing::NoBody { next: None }
            } else {
                Framing::NoBody { next: Some(offset) }
            }
        },
    }
}

/// The method of a complete head and how its body lies in a buffer of
/// `len` bytes; `UnknownMethod` where the method is not a token.
pub fn plan_request(len: usize, head: &RequestHead) -> (r: Result<(http::Method, Framing), ParseRequestError>)
    requires
        head.offset <= len,
        is_method(vstd::utf8::encode_utf8(head.view().method)) ==> content_lengths_parse(head.view().headers),
    ensures
        match r {
            Ok((m, f)) => {
                &&& is_method(vstd::utf8::encode_utf8(head.view().method))
                &&& m == http_method(vstd::utf8::encode_utf8(head.view().method))
                &&& frame_matches(f, len as int, head.offset as int, spec_content_length(head.view().headers))
            },
            Err(e) => !is_method(vstd::utf8::encode_utf8(head.view().method)) && e == ParseRequestError::UnknownMethod,
        },
{
    let ms = crate::text::as_str_bytes(&head.method);
    let method = match method_from_str(ms) {
        Some(m) => m,
        None => return Err(ParseRequestError::UnknownMethod),
    };
    let cl = content_length(&head.headers);
    let f = frame_body(len, head.offset, cl);
    Ok((method, f))
}

/// `f` is the framing of a buffer of `len` bytes whose head ends at
/// `offset`, for a body of `content_length` bytes where given.
pub open spec fn frame_matches(f: Framing, len: int, offset: int, content_length: Option<usize>) -> bool {
    match content_length {
        Some(cl) => if len - offset == cl {
            f == Framing::Body { next: None }
        } else if len - offset > cl {
            f == Framing::Body { next: Some((offset + cl) as usize) }
        } else {
            f == Framing::ReadMore { missing: (cl - (len - offset)) as usize }
        },
        None => if len == offset {
            f == Framing::NoBody { next: None }
        } else {
            f == Framing::NoBody { next: Some(offset as usize) }
        },
    }
}

} // verus!
