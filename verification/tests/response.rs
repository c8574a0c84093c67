use submillisecond::response::{html_content_type, Redirect};

#[test]
fn redirect_status_codes() {
    let r = Redirect::to("/login".to_string());
    assert_eq!(r.status_code, 303);
    assert_eq!(r.location, "/login");
    assert_eq!(Redirect::temporary("/a".to_string()).status_code, 307);
    assert_eq!(Redirect::permanent("/b".to_string()).status_code, 308);
}

#[test]
fn html_sets_utf8_html() {
    assert_eq!(html_content_type(), "text/html; charset=utf-8");
}
