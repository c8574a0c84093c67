use submillisecond::reader::UriReader;

#[test]
fn reader_peek_empty_string() {
    let reader = UriReader::new("".to_string());
    assert_eq!(reader.peek(5), "");
}

#[test]
fn reader_peek_path() {
    let mut reader = UriReader::new("/alive".to_string());
    assert_eq!(reader.peek(3), "/al");
    reader.read(3);
    assert_eq!(reader.peek(3), "ive");
    reader.read(3);
    assert_eq!(reader.peek(3), "");
    reader.read(3);
}

#[test]
fn reader_read_matching_and_param() {
    let mut reader = UriReader::new("/users/42/posts".to_string());
    assert!(reader.read_matching("/users"));
    assert!(reader.ensure_next_slash());
    assert_eq!(reader.read_param(), Some("42"));
    assert!(reader.ends_with("/posts"));
    assert_eq!(reader.read_to_end(), "/posts");
    reader.reset();
    assert_eq!(reader.cursor, 0);
}

#[test]
fn reader_dangling_slash() {
    let mut reader = UriReader::new("/a/".to_string());
    reader.read(2);
    assert!(reader.is_dangling_slash());
    assert!(reader.is_dangling_terminal_slash());
    assert!(reader.is_empty(true));
    assert!(!reader.is_empty(false));
}

#[test]
fn reader_dangling_slash_with_more_left() {
    let mut reader = UriReader::new("/a/b".to_string());
    reader.read(2);
    assert!(!reader.is_dangling_slash());
    assert!(!reader.is_dangling_terminal_slash());
    reader.read(2);
    assert!(reader.is_dangling_slash());
}

#[test]
fn reader_ends_with_suffix() {
    let mut reader = UriReader::new("/foo/bar".to_string());
    assert!(reader.ends_with("bar"));
    assert!(reader.ends_with("/foo/bar"));
    assert!(reader.ends_with(""));
    assert!(!reader.ends_with("foo"));
    assert!(!reader.ends_with("x/foo/bar"));
    reader.read(8);
    assert!(!reader.ends_with(""));
}

#[test]
fn reader_read_matching_past_the_end() {
    let mut reader = UriReader::new("/a".to_string());
    reader.read(5);
    assert!(!reader.read_matching(""));
    assert!(!reader.read_matching("/a"));
    assert_eq!(reader.cursor, 5);
    reader.reset();
    assert!(reader.read_matching(""));
    assert!(!reader.read_matching("/ab"));
    assert!(reader.read_matching("/a"));
    assert_eq!(reader.cursor, 2);
}
