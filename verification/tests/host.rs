use submillisecond::extract::host::{parse_forwarded, Host};

#[test]
fn host_header() {
    let original_host = "some-domain:123";
    let Host(host) = Host::resolve(None, None, Some(original_host.as_bytes()), None).unwrap();
    assert_eq!(host, original_host);
}

#[test]
fn x_forwarded_host_header() {
    let original_host = "some-domain:456";
    let Host(host) = Host::resolve(None, Some(original_host.as_bytes()), None, None).unwrap();
    assert_eq!(host, original_host);
}

#[test]
fn x_forwarded_host_precedence_over_host_header() {
    let x_forwarded_host_header = "some-domain:456";
    let host_header = "some-domain:123";
    let Host(host) = Host::resolve(
        None,
        Some(x_forwarded_host_header.as_bytes()),
        Some(host_header.as_bytes()),
        None,
    )
    .unwrap();
    assert_eq!(host, x_forwarded_host_header);
}

#[test]
fn uri_host() {
    let Host(host) = Host::resolve(None, None, None, Some("127.0.0.1")).unwrap();
    assert!(host.contains("127.0.0.1"));
}

#[test]
fn forwarded_parsing() {
    // the basic case
    let value = parse_forwarded(Some(b"host=192.0.2.60;proto=http;by=203.0.113.43")).unwrap();
    assert_eq!(value, b"192.0.2.60");

    // is case insensitive
    let value = parse_forwarded(Some(b"host=192.0.2.60;proto=http;by=203.0.113.43")).unwrap();
    assert_eq!(value, b"192.0.2.60");

    // ipv6
    let value = parse_forwarded(Some(b"host=\"[2001:db8:cafe::17]:4711\"")).unwrap();
    assert_eq!(value, b"[2001:db8:cafe::17]:4711");

    // multiple values in one header
    let value = parse_forwarded(Some(b"host=192.0.2.60, host=127.0.0.1")).unwrap();
    assert_eq!(value, b"192.0.2.60");

    // multiple header values: the first one is the one looked at
    let headers = [&b"host=192.0.2.60"[..], &b"host=127.0.0.1"[..]];
    let value = parse_forwarded(headers.first().copied()).unwrap();
    assert_eq!(value, b"192.0.2.60");
}

#[test]
fn forwarded_key_case_is_ignored() {
    let value = parse_forwarded(Some(b"HoSt=192.0.2.60;proto=http")).unwrap();
    assert_eq!(value, b"192.0.2.60");
    assert_eq!(parse_forwarded(Some(b"proto=http;by=x")), None);
    assert_eq!(parse_forwarded(None), None);
}

#[test]
fn forwarded_host_takes_precedence() {
    let Host(host) = Host::resolve(
        Some(b"for=1.2.3.4; host = example.org"),
        Some(b"other"),
        Some(b"third"),
        Some("fourth"),
    )
    .unwrap();
    assert_eq!(host, "example.org");
}

#[test]
fn invisible_headers_are_skipped() {
    assert_eq!(parse_forwarded(Some(b"host=\x01")), None);
    let Host(host) = Host::resolve(Some(b"proto=http"), Some(b"bad\x7f"), Some(b"good"), None).unwrap();
    assert_eq!(host, "good");
    assert!(Host::resolve(None, None, None, None).is_none());
}
