use submillisecond::requests::{
    after_read, content_length, frame_body, parse_step, parse_usize, plan_request, Body, Framing,
    ParseRequestError, ParseStep,
};

#[test]
fn body_views_its_slice() {
    let data = [1u8, 2, 3];
    let body = Body::from_slice(&data);
    assert_eq!(body.as_slice(), &[1, 2, 3]);
    assert_eq!(body.len(), 3);
    assert!(!body.is_empty());
    assert!(Body::from_slice(&[]).is_empty());
}

#[test]
fn parse_usize_as_str_parse() {
    assert_eq!(parse_usize(b"42"), Some(42));
    assert_eq!(parse_usize(b"+7"), Some(7));
    assert_eq!(parse_usize(b""), None);
    assert_eq!(parse_usize(b"+"), None);
    assert_eq!(parse_usize(b"-1"), None);
    assert_eq!(parse_usize(b"4a"), None);
    assert_eq!(parse_usize(b"99999999999999999999999"), None);
}

#[test]
fn content_length_takes_the_last_header() {
    let headers = vec![
        ("Host".to_string(), b"x".to_vec()),
        ("Content-Length".to_string(), b"5".to_vec()),
        ("content-length".to_string(), b"7".to_vec()),
    ];
    assert_eq!(content_length(&headers), Some(7));
    assert_eq!(content_length(&vec![("Host".to_string(), b"x".to_vec())]), None);
}

#[test]
fn frame_body_cases() {
    assert!(matches!(frame_body(10, 5, Some(5)), Framing::Body { next: None }));
    assert!(matches!(frame_body(12, 5, Some(5)), Framing::Body { next: Some(10) }));
    assert!(matches!(frame_body(8, 5, Some(5)), Framing::ReadMore { missing: 2 }));
    assert!(matches!(frame_body(5, 5, None), Framing::NoBody { next: None }));
    assert!(matches!(frame_body(9, 5, None), Framing::NoBody { next: Some(5) }));
}

#[test]
fn after_read_decisions() {
    assert!(matches!(after_read(None, 0), Some(ParseRequestError::TcpStreamClosedWithoutData)));
    assert!(matches!(after_read(Some(0), 3), Some(ParseRequestError::TcpStreamClosed)));
    assert!(matches!(after_read(Some(10), 10_485_760), Some(ParseRequestError::RequestTooLarge)));
    assert!(after_read(Some(10), 0).is_none());
}

#[test]
fn parse_step_complete_and_partial() {
    let raw = b"GET /hello HTTP/1.1\r\nHost: x\r\nContent-Length: 5\r\n\r\nhelloGET";
    let head = match parse_step(raw) {
        ParseStep::Complete(head) => head,
        _ => panic!(),
    };
    assert_eq!(head.method, "GET");
    assert_eq!(head.path, "/hello");
    assert_eq!(head.offset, 51);
    assert_eq!(head.headers.len(), 2);
    let (method, framing) = plan_request(raw.len(), &head).unwrap();
    assert_eq!(method, http::Method::GET);
    assert!(matches!(framing, Framing::Body { next: Some(56) }));
    assert!(matches!(parse_step(b"GET /hel"), ParseStep::Partial));
    assert!(matches!(parse_step(b"GET /\x01 HTTP/1.1\r\n\r\n"), ParseStep::Failed(_)));
}

#[test]
fn plan_request_rejects_bad_method() {
    let raw = b"GET / HTTP/1.1\r\n\r\n";
    let mut head = match parse_step(raw) {
        ParseStep::Complete(head) => head,
        _ => panic!(),
    };
    head.method = "G(T".to_string();
    assert!(matches!(plan_request(raw.len(), &head), Err(ParseRequestError::UnknownMethod)));
}
