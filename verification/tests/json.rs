use submillisecond::json::{json_content_type, json_rejection, JsonErrorCategory, JsonRejectionKind};

#[test]
fn json_content_types() {
    assert!(json_content_type(Some(b"application/json")));
    assert!(json_content_type(Some(b"application/json; charset=utf-8")));
    assert!(json_content_type(Some(b"APPLICATION/JSON")));
    assert!(json_content_type(Some(b"application/ld+json")));
    assert!(!json_content_type(Some(b"text/json")));
    assert!(!json_content_type(Some(b"application/xml")));
    assert!(!json_content_type(Some(b"not a mime")));
    assert!(!json_content_type(Some(b"application/json\x01")));
    assert!(!json_content_type(None));
}

fn category(body: &[u8]) -> JsonErrorCategory {
    convert(serde_json::from_slice::<u32>(body).unwrap_err())
}

fn convert(err: serde_json::Error) -> JsonErrorCategory {
    match err.classify() {
        serde_json::error::Category::Io => JsonErrorCategory::Io,
        serde_json::error::Category::Syntax => JsonErrorCategory::Syntax,
        serde_json::error::Category::Data => JsonErrorCategory::Data,
        serde_json::error::Category::Eof => JsonErrorCategory::Eof,
    }
}

#[test]
fn json_rejection_splits_syntax_and_data_errors() {
    assert_eq!(json_rejection(false, None), Some(JsonRejectionKind::MissingJsonContentType));
    assert_eq!(json_rejection(true, None), None);
    let syntax = json_rejection(true, Some(category(b"x"))).unwrap();
    assert_eq!(syntax, JsonRejectionKind::JsonSyntaxError);
    assert_eq!(syntax.status_code(), 400);
    let eof_category = convert(serde_json::from_slice::<Vec<u32>>(b"[1").unwrap_err());
    assert_eq!(eof_category, JsonErrorCategory::Eof);
    let eof = json_rejection(true, Some(eof_category)).unwrap();
    assert_eq!(eof, JsonRejectionKind::JsonSyntaxError);
    let data = json_rejection(true, Some(category(b"\"text\""))).unwrap();
    assert_eq!(data, JsonRejectionKind::JsonDataError);
    assert_eq!(data.status_code(), 422);
    assert_eq!(JsonRejectionKind::MissingJsonContentType.status_code(), 415);
}
