use submillisecond::requests::parse_usize;
use submillisecond::supervisor::{
    response_to_vec, supervise, text_response, write_decimal, SupervisorAction, WorkerMessage,
};

#[test]
fn response_bytes_on_the_wire() {
    let headers = vec![("content-type".to_string(), b"text/plain".to_vec())];
    let bytes = response_to_vec(200, &headers, b"hi");
    assert_eq!(
        bytes,
        b"HTTP/1.1 200 OK\r\ncontent-type: text/plain\r\ncontent-length: 2\r\n\r\nhi".to_vec()
    );
}

#[test]
fn content_length_goes_after_existing_one() {
    let headers = vec![
        ("content-length".to_string(), b"9".to_vec()),
        ("x-a".to_string(), b"1".to_vec()),
        ("x-b".to_string(), vec![0xff]),
    ];
    let bytes = response_to_vec(404, &headers, b"");
    assert_eq!(
        bytes,
        b"HTTP/1.1 404 Not Found\r\ncontent-length: 9\r\ncontent-length: 0\r\nx-a: 1\r\n\r\n".to_vec()
    );
}

#[test]
fn text_response_for_unknown_reason() {
    assert!(text_response(599, "x").is_none());
    assert!(text_response(42, "x").is_none());
    let bytes = text_response(500, "Internal Server Error").unwrap();
    assert_eq!(
        bytes,
        b"HTTP/1.1 500 Internal Server Error\r\ncontent-type: text/plain; charset=utf-8\r\ncontent-length: 21\r\n\r\nInternal Server Error".to_vec()
    );
}

#[test]
fn supervisor_decisions() {
    match supervise(WorkerMessage::Response(b"a".to_vec(), b"b".to_vec())) {
        SupervisorAction::Respond { data, next } => {
            assert_eq!(data, b"a".to_vec());
            assert_eq!(next, b"b".to_vec());
        }
        _ => panic!(),
    }
    match supervise(WorkerMessage::TimedOut) {
        SupervisorAction::Close { response, kill_worker } => {
            assert!(kill_worker);
            let bytes = response.unwrap();
            assert!(bytes.starts_with(b"HTTP/1.1 408 Request Timeout\r\n"));
            assert!(bytes.ends_with(b"\r\n\r\nRequest timed out"));
        }
        _ => panic!(),
    }
    for msg in [WorkerMessage::LinkDied, WorkerMessage::Failure("boom".to_string())] {
        match supervise(msg) {
            SupervisorAction::Close { response, kill_worker } => {
                assert!(!kill_worker);
                assert!(response.unwrap().starts_with(b"HTTP/1.1 500 Internal Server Error\r\n"));
            }
            _ => panic!(),
        }
    }
}

#[test]
fn decimal_reads_back() {
    for n in [0usize, 7, 10, 12345, usize::MAX] {
        let mut out = Vec::new();
        write_decimal(&mut out, n);
        assert_eq!(parse_usize(&out), Some(n));
    }
}
