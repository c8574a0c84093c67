use submillisecond::websocket::{accept_key, check_upgrade, HttpVersion, WebSocketRejection};

#[test]
fn accept_key_rfc_example() {
    assert_eq!(accept_key(b"dGhlIHNhbXBsZSBub25jZQ=="), "s3pPLMBiTxaQ9kYGzzhZRbK+xOo=");
}

#[test]
fn upgrade_accepted() {
    let key = check_upgrade(
        Some(b"Upgrade"),
        Some(b"websocket"),
        HttpVersion::Http11,
        b"GET",
        Some(b"13"),
        Some(b"abc"),
    )
    .unwrap();
    assert_eq!(key, b"abc".to_vec());
}

#[test]
fn upgrade_rejections() {
    let check = |c: Option<&[u8]>, u: Option<&[u8]>, v, m: &[u8], wv: Option<&[u8]>, wk: Option<&[u8]>| {
        check_upgrade(c, u, v, m, wv, wk).unwrap_err()
    };
    assert_eq!(
        check(None, Some(b"websocket"), HttpVersion::Http11, b"GET", Some(b"13"), Some(b"k")),
        WebSocketRejection::MissingUpgradeHeader
    );
    assert_eq!(
        check(Some(b"Upgrade"), Some(b"WebSocket"), HttpVersion::Http11, b"GET", Some(b"13"), Some(b"k")),
        WebSocketRejection::MissingUpgradeHeader
    );
    assert_eq!(
        check(Some(b"Upgrade"), Some(b"websocket"), HttpVersion::Http10, b"GET", Some(b"13"), Some(b"k")),
        WebSocketRejection::UnsupportedHttpVersion
    );
    assert_eq!(
        check(Some(b"Upgrade"), Some(b"websocket"), HttpVersion::Http2, b"POST", Some(b"13"), Some(b"k")),
        WebSocketRejection::UnsupportedHttpMethod
    );
    assert_eq!(
        check(Some(b"Upgrade"), Some(b"websocket"), HttpVersion::Http11, b"GET", None, Some(b"k")),
        WebSocketRejection::MissingWebSocketVersion
    );
    assert_eq!(
        check(Some(b"Upgrade"), Some(b"websocket"), HttpVersion::Http11, b"GET", Some(b"8"), Some(b"k")),
        WebSocketRejection::UnsupportedWebSocketVersion
    );
    assert_eq!(
        check(Some(b"Upgrade"), Some(b"websocket"), HttpVersion::Http11, b"GET", Some(b"13"), None),
        WebSocketRejection::MissingWebSocketKey
    );
}

#[test]
fn rejection_responses() {
    assert_eq!(WebSocketRejection::MissingUpgradeHeader.status(), 400);
    assert_eq!(WebSocketRejection::MissingUpgradeHeader.body(), "missing upgrade header");
    assert_eq!(WebSocketRejection::UnsupportedHttpVersion.status(), 505);
    assert_eq!(WebSocketRejection::UnsupportedHttpMethod.status(), 405);
    assert_eq!(WebSocketRejection::UnsupportedWebSocketVersion.status(), 501);
    assert_eq!(
        WebSocketRejection::UnsupportedWebSocketVersion.body(),
        "websocket version not supported"
    );
}
