use submillisecond::cookies::{load_cookies, set_cookie_header, store_cookies};

#[test]
fn set_cookie_joins_the_delta() {
    assert_eq!(set_cookie_header(&vec![], None), None);
    assert_eq!(set_cookie_header(&vec!["a=1".to_string()], None), Some(b"a=1".to_vec()));
    assert_eq!(
        set_cookie_header(&vec!["a=1".to_string(), "b=2".to_string(), "c=3".to_string()], None),
        Some(b"a=1;b=2;c=3".to_vec())
    );
}

#[test]
fn set_cookie_merges_the_existing_header() {
    assert_eq!(
        set_cookie_header(&vec!["a=1".to_string()], Some(b"x=9")),
        Some(b"a=1;x=9".to_vec())
    );
    assert_eq!(
        set_cookie_header(&vec!["a=1".to_string()], Some(b"x=\x01")),
        Some(b"a=1".to_vec())
    );
    assert_eq!(set_cookie_header(&vec!["a=\x7f".to_string()], None), None);
}

#[test]
fn loading_keeps_the_delta_empty() {
    let mut jar = cookie::CookieJar::new();
    load_cookies(&mut jar, Some(b"a=1; b=2"));
    assert_eq!(jar.get("a").map(|c| c.value().to_string()), Some("1".to_string()));
    assert_eq!(jar.get("b").map(|c| c.value().to_string()), Some("2".to_string()));
    assert_eq!(store_cookies(&jar, None), None);
    jar.add(cookie::Cookie::new("c", "3"));
    assert_eq!(store_cookies(&jar, None), Some(b"c=3".to_vec()));
}

#[test]
fn set_cookie_separates_every_cookie() {
    let header = set_cookie_header(&vec!["a=1".to_string(), "b=2".to_string()], Some(b"x=9")).unwrap();
    let parts: Vec<&[u8]> = header.split(|b| *b == b';').collect();
    assert_eq!(parts, vec![&b"a=1"[..], &b"b=2"[..], &b"x=9"[..]]);
}
