use submillisecond::uri_reader::{UriReadError, UriReader};

#[test]
fn uri_reader_peek_empty_string() {
    let reader = UriReader::new("".to_string());
    assert_eq!(reader.peek(5), "");
}

#[test]
fn uri_reader_peek_path() {
    let mut reader = UriReader::new("/alive".to_string());
    assert_eq!(reader.peek(3), "/al");
    reader.read(3);
    assert_eq!(reader.peek(3), "ive");
    reader.read(3);
    assert_eq!(reader.peek(3), "");
    reader.read(3);
}

#[test]
fn uri_reader_empty_param_is_an_error() {
    let mut reader = UriReader::new("/".to_string());
    reader.read(1);
    assert_eq!(reader.read_param(), Err(UriReadError::EmptyOnExpectedParam));
}
