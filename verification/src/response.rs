//! Response bodies.
use vstd::prelude::*;

verus! {

/// Html response body with Content-Type set to utf8 text/html.
#[derive(Debug, Clone, Copy, Default)]
pub struct Html<T>(pub T);

/// A template response body.
#[derive(Debug, Clone, Copy, Default)]
pub struct Template<T>(pub T);

/// The `Content-Type` value that an [`Html`] body sets.
pub fn html_content_type() -> (r: &'static str)
    ensures
        r@ == "text/html; charset=utf-8"@,
{
    "text/html; charset=utf-8"
}

/// A redirect response: its status code and the uri it sends the client to,
/// which becomes the `Location` header.
#[derive(Debug, Clone)]
pub struct Redirect {
    pub status_code: u16,
    pub location: String,
}

impl Redirect {
    /// A `303 See Other` redirect.
    pub fn to(location: String) -> (r: Redirect)
        ensures
            r.status_code == 303,
            r.location == location,
    {
        Redirect { status_code: 303, location }
    }

    /// A `307 Temporary Redirect`.
    pub fn temporary(location: String) -> (r: Redirect)
        ensures
            r.status_code == 307,
            r.location == location,
    {
        Redirect { status_code: 307, location }
    }

    /// A `308 Permanent Redirect`.
    pub fn permanent(location: String) -> (r: Redirect)
        ensures
            r.status_code == 308,
            r.location == location,
    {
        Redirect { status_code: 308, location }
    }
}

} // verus!
