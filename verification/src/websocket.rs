//! Websockets: the checks that a request must pass to be upgraded, the key
//! that accepts the upgrade, and the responses to a refused upgrade.
use vstd::prelude::*;
use vstd::string::StringSliceAdditionalSpecFns;

verus! {

/// The configuration for WebSocket connection.
#[derive(Clone, Copy, Debug)]
pub struct WebSocketConfig {
    /// The size of the send queue; `None` for an unlimited queue.
    pub max_send_queue: Option<usize>,
    /// The maximum size of a message; `None` for no limit.
    pub max_message_size: Option<usize>,
    /// The maximum size of a single message frame; `None` for no limit.
    pub max_frame_size: Option<usize>,
    /// Whether unmasked frames from the client are accepted.
    pub accept_unmasked_frames: bool,
}

/// WebSocket upgrade rejection.
#[derive(Debug, Clone, Copy, PartialEq, Eq, Structural)]
pub enum WebSocketRejection {
    /// Missing upgrade header.
    MissingUpgradeHeader,
    /// Missing websocket key.
    MissingWebSocketKey,
    /// Missing websocket version.
    MissingWebSocketVersion,
    /// Unsupported HTTP version.
    UnsupportedHttpVersion,
    /// Unsupported HTTP method.
    UnsupportedHttpMethod,
    /// Unsupported websocket version.
    UnsupportedWebSocketVersion,
}

impl WebSocketRejection {
    /// The status code of the response to the rejection.
    pub fn status(&self) -> (r: u16)
        ensures
            r == match self {
                WebSocketRejection::MissingUpgradeHeader => 400u16,
                WebSocketRejection::MissingWebSocketKey => 400u16,
                WebSocketRejection::MissingWebSocketVersion => 400u16,
                WebSocketRejection::UnsupportedHttpVersion => 505u16,
                WebSocketRejection::UnsupportedHttpMethod => 405u16,
                WebSocketRejection::UnsupportedWebSocketVersion => 501u16,
            },
    {
        match self {
            WebSocketRejection::MissingUpgradeHeader => 400,
            WebSocketRejection::MissingWebSocketKey => 400,
            WebSocketRejection::MissingWebSocketVersion => 400,
            WebSocketRejection::UnsupportedHttpVersion => 505,
            WebSocketRejection::UnsupportedHttpMethod => 405,
            WebSocketRejection::UnsupportedWebSocketVersion => 501,
        }
    }

    /// The body of the response to the rejection.
    pub fn body(&self) -> (r: &'static str)
        ensures
            r@ == match self {
                WebSocketRejection::MissingUpgradeHeader => "missing upgrade header"@,
                WebSocketRejection::MissingWebSocketKey => "missing websocket key"@,
                WebSocketRejection::MissingWebSocketVersion => "missing websocket version"@,
                WebSocketRejection::UnsupportedHttpVersion => "unsupported http version for websocket"@,
                WebSocketRejection::UnsupportedHttpMethod => "http method not allowed for websocket"@,
                WebSocketRejection::UnsupportedWebSocketVersion => "websocket version not supported"@,
            },
    {
        match self {
            WebSocketRejection::MissingUpgradeHeader => "missing upgrade header",
            WebSocketRejection::MissingWebSocketKey => "missing websocket key",
            WebSocketRejection::MissingWebSocketVersion => "missing websocket version",
            WebSocketRejection::UnsupportedHttpVersion => "unsupported http version for websocket",
            WebSocketRejection::UnsupportedHttpMethod => "http method not allowed for websocket",
            WebSocketRejection::UnsupportedWebSocketVersion => "websocket version not supported",
        }
    }
}

/// HTTP versions, in order.
#[derive(Debug, Clone, Copy, PartialEq, Eq, Structural)]
pub enum HttpVersion {
    Http09,
    Http10,
    Http11,
    Http2,
    Http3,
}

/// The version is HTTP/1.1 or later.
pub open spec fn at_least_http11(v: HttpVersion) -> bool {
    !(v is Http09) && !(v is Http10)
}

/// The header value is exactly `expected`.
pub open spec fn header_is(h: Option<Seq<u8>>, expected: Seq<u8>) -> bool {
    h == Some(expected)
}

/// The bytes of `Upgrade`.
pub open spec fn upgrade_value() -> Seq<u8> {
    seq![0x55u8, 0x70, 0x67, 0x72, 0x61, 0x64, 0x65]
}

/// The bytes of `websocket`.
pub open spec fn websocket_value() -> Seq<u8> {
    seq![0x77u8, 0x65, 0x62, 0x73, 0x6f, 0x63, 0x6b, 0x65, 0x74]
}

/// The bytes of `13`.
pub open spec fn version_13() -> Seq<u8> {
    seq![0x31u8, 0x33]
}

/// The bytes of `GET`.
pub open spec fn get_method() -> Seq<u8> {
    seq![0x47u8, 0x45, 0x54]
}

/// The outcome of the upgrade checks, in the order they are made: the
/// `Connection` header is `Upgrade`, the `Upgrade` header `websocket`, the
/// version HTTP/1.1 or later, the method `GET`, the `Sec-WebSocket-Version`
/// header `13`, and a `Sec-WebSocket-Key` header is present; its value is
/// the key.
pub open spec fn spec_upgrade(
    connection: Option<Seq<u8>>,
    upgrade: Option<Seq<u8>>,
    version: HttpVersion,
    method: Seq<u8>,
    ws_version: Option<Seq<u8>>,
    ws_key: Option<Seq<u8>>,
) -> Result<Seq<u8>, WebSocketRejection> {
    if !header_is(connection, upgrade_value()) || !header_is(upgrade, websocket_value()) {
        Err(WebSocketRejection::MissingUpgradeHeader)
    } else if !at_least_http11(version) {
        Err(WebSocketRejection::UnsupportedHttpVersion)
    } else if method != get_method() {
        Err(WebSocketRejection::UnsupportedHttpMethod)
    } else if ws_version is None {
        Err(WebSocketRejection::MissingWebSocketVersion)
    } else if ws_version != Some(version_13()) {
        Err(WebSocketRejection::UnsupportedWebSocketVersion)
    } else {
        match ws_key {
            Some(k) => Ok(k),
            None => Err(WebSocketRejection::MissingWebSocketKey),
        }
    }
}

/// The bytes of an optional header value.
pub open spec fn opt_seq(v: Option<&[u8]>) -> Option<Seq<u8>> {
    match v {
        Some(b) => Some(b@),
        None => None,
    }
}

/// `h` is present and holds `expected`.
fn header_equals(h: Option<&[u8]>, expected: &[u8]) -> (r: bool)
    ensures
        r == header_is(opt_seq(h), expected@),
{
    match h {
        Some(v) => crate::text::bytes_eq(v, expected),
        None => false,
    }
}

/// Checks that a request asks for a websocket upgrade, from its
/// `Connection`, `Upgrade`, `Sec-WebSocket-Version` and `Sec-WebSocket-Key`
/// header values, its version and its method; gives the websocket key.
pub fn check_upgrade(
    connection: Option<&[u8]>,
    upgrade: Option<&[u8]>,
    version: HttpVersion,
    method: &[u8],
    ws_version: Option<&[u8]>,
    ws_key: Option<&[u8]>,
) -> (r: Result<Vec<u8>, WebSocketRejection>)
    ensures
        match (r, spec_upgrade(opt_seq(connection), opt_seq(upgrade), version, method@, opt_seq(ws_version), opt_seq(ws_key))) {
            (Ok(k), Ok(sk)) => k@ == sk,
            (Err(e), Err(se)) => e == se,
            _ => false,
        },
        r matches Ok(k) ==> opt_seq(ws_key) == Some(k@),
{
    let upgrade_v: [u8; 7] = [0x55, 0x70, 0x67, 0x72, 0x61, 0x64, 0x65];
    let websocket_v: [u8; 9] = [0x77, 0x65, 0x62, 0x73, 0x6f, 0x63, 0x6b, 0x65, 0x74];
    let v13: [u8; 2] = [0x31, 0x33];
    let get: [u8; 3] = [0x47, 0x45, 0x54];
    assert(upgrade_v@ =~= upgrade_value());
    assert(websocket_v@ =~= websocket_value());
    assert(v13@ =~= version_13());
    assert(get@ =~= get_method());
    if !header_equals(connection, &upgrade_v) {
        return Err(WebSocketRejection::MissingUpgradeHeader);
    }
    if !header_equals(upgrade, &websocket_v) {
        return Err(WebSocketRejection::MissingUpgradeHeader);
    }
    match version {
        HttpVersion::Http09 | HttpVersion::Http10 => {
            return Err(WebSocketRejection::UnsupportedHttpVersion);
        },
        _ => {},
    }
    if !crate::text::bytes_eq(method, &get) {
        return Err(WebSocketRejection::UnsupportedHttpMethod);
    }
    let wv = match ws_version {
        Some(v) => v,
        None => return Err(WebSocketRejection::MissingWebSocketVersion),
    };
    if !crate::text::bytes_eq(wv, &v13) {
        return Err(WebSocketRejection::UnsupportedWebSocketVersion);
    }
    match ws_key {
        Some(k) => Ok(vstd::slice::slice_to_vec(k)),
        None => Err(WebSocketRejection::MissingWebSocketKey),
    }
}

/// An upgrade goes through exactly when the `Connection` header is
/// `Upgrade`, the `Upgrade` header `websocket`, the version HTTP/1.1 or
/// later, the method `GET`, the `Sec-WebSocket-Version` header `13`, and a
/// `Sec-WebSocket-Key` header is present; the key it gives is that header's
/// value, byte for byte.
pub proof fn law_upgrade_key(
    connection: Option<Seq<u8>>,
    upgrade: Option<Seq<u8>>,
    version: HttpVersion,
    method: Seq<u8>,
    ws_version: Option<Seq<u8>>,
    ws_key: Option<Seq<u8>>,
)
    ensures
        spec_upgrade(connection, upgrade, version, method, ws_version, ws_key) is Ok <==> (connection
            == Some(seq![0x55u8, 0x70, 0x67, 0x72, 0x61, 0x64, 0x65]) && upgrade == Some(
            seq![0x77u8, 0x65, 0x62, 0x73, 0x6f, 0x63, 0x6b, 0x65, 0x74],
        ) && !(version is Http09) && !(version is Http10) && method == seq![
            0x47u8,
            0x45,
            0x54,
        ] && ws_version == Some(seq![0x31u8, 0x33]) && ws_key is Some),
        spec_upgrade(connection, upgrade, version, method, ws_version, ws_key) matches Ok(k) ==> ws_key
            == Some(k),
{
}

/// The SHA-1 digest of the bytes.
pub uninterp spec fn sha1(data: Seq<u8>) -> Seq<u8>;

/// Hashes the bytes with `sha1::Sha1`.
///
/// Trusted: the digest is the one that `sha1` names for the bytes, and it
/// is 20 bytes long (the output size of `Sha1`).
#[verifier::external_body]
fn sha1_digest(data: &[u8]) -> (r: Vec<u8>)
    ensures
        r@ == sha1(data@),
        r@.len() == 20,
{
    let mut hasher = <sha1::Sha1 as sha1::Digest>::new();
    sha1::Digest::update(&mut hasher, data);
    sha1::Digest::finalize(hasher).to_vec()
}

/// The char of the standard Base64 alphabet for the six bits `v`.
pub open spec fn base64_char(v: int) -> char {
    if v < 26 {
        (0x41 + v) as char
    } else if v < 52 {
        (0x61 + v - 26) as char
    } else if v < 62 {
        (0x30 + v - 52) as char
    } else if v == 62 {
        '+'
    } else {
        '/'
    }
}

/// The padded standard Base64 encoding of the bytes: each group of three
/// bytes becomes four chars of six bits each; a last group of one or two
/// bytes is padded with `=`.
pub open spec fn base64(data: Seq<u8>) -> Seq<char>
    decreases data.len(),
{
    let b0 = data[0] as int;
    let b1 = data[1] as int;
    let b2 = data[2] as int;
    if data.len() == 0 {
        Seq::empty()
    } else if data.len() == 1 {
        seq![base64_char(b0 / 4), base64_char((b0 % 4) * 16), '=', '=']
    } else if data.len() == 2 {
        seq![base64_char(b0 / 4), base64_char((b0 % 4) * 16 + b1 / 16), base64_char((b1 % 16) * 4), '=']
    } else {
        seq![
            base64_char(b0 / 4),
            base64_char((b0 % 4) * 16 + b1 / 16),
            base64_char((b1 % 16) * 4 + b2 / 64),
            base64_char(b2 % 64),
        ] + base64(data.subrange(3, data.len() as int))
    }
}

/// Encodes the bytes with `base64ct::Base64::encode_string`, which panics on
/// an input longer than a quarter of the address space.
///
/// Trusted: the encoding is the padded standard Base64 that `base64`
/// states (the alphabet and padding of `base64ct::Base64`).
#[verifier::external_body]
fn base64_encode(data: &[u8]) -> (r: String)
    requires
        data@.len() <= usize::MAX / 4,
    ensures
        r@ == base64(data@),
{
    <base64ct::Base64 as base64ct::Encoding>::encode_string(data)
}

/// The GUID that RFC 6455 appends to the key.
pub open spec fn websocket_guid() -> Seq<u8> {
    "258EAFA5-E914-47DA-95CA-C5AB0DC85B11"@.map_values(|c: char| c as u8)
}

/// The `Sec-WebSocket-Accept` value for a websocket key: the Base64 of the
/// SHA-1 digest of the key followed by the websocket GUID.
pub fn accept_key(key: &[u8]) -> (r: String)
    ensures
        r@ == base64(sha1(key@ + websocket_guid())),
{
    let guid = "258EAFA5-E914-47DA-95CA-C5AB0DC85B11";
    proof {
        reveal_strlit("258EAFA5-E914-47DA-95CA-C5AB0DC85B11");
        vstd::utf8::is_ascii_chars_encode_utf8(guid@);
    }
    let gb = guid.as_bytes();
    assert(gb@ =~= websocket_guid());
    let mut data = vstd::slice::slice_to_vec(key);
    let mut i: usize = 0;
    while i < gb.len()
        invariant
            i <= gb@.len(),
            data@ == key@ + gb@.subrange(0, i as int),
        decreases gb@.len() - i,
    {
        data.push(gb[i]);
        i += 1;
        assert(gb@.subrange(0, i as int) =~= gb@.subrange(0, i - 1) + seq![gb@[i - 1]]);
    }
    assert(gb@.subrange(0, gb@.len() as int) =~= gb@);
    let digest = sha1_digest(data.as_slice());
    base64_encode(digest.as_slice())
}

} // verus!
