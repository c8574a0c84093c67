//! Cookies: loading the request's cookies into a jar, and the `Set-Cookie`
//! header that carries the jar's changes back.
use vstd::prelude::*;
use vstd::multiset::Multiset;
use vstd::utf8::*;

use crate::extract::host::visible_ascii;
use crate::text::extend;

verus! {

#[verifier::external_type_specification]
#[verifier::external_body]
pub struct ExCookieJar(cookie::CookieJar);

/// The encoded cookies of the jar's delta: those added or removed since
/// the jar was filled from the request.
pub uninterp spec fn jar_delta(jar: cookie::CookieJar) -> Multiset<Seq<char>>;

/// The original cookies of the jar, those it was filled with from the
/// request: each cookie's value by its name.
pub uninterp spec fn jar_originals(jar: cookie::CookieJar) -> Map<Seq<char>, Seq<char>>;

/// The name and value of the cookie that `cookie::Cookie::parse_encoded`
/// reads from a string, if it reads one.
pub uninterp spec fn parsed_cookie(piece: Seq<char>) -> Option<(Seq<char>, Seq<char>)>;

/// Parses `piece` with `cookie::Cookie::parse_encoded` and, where it
/// parses, adds the cookie to the jar with `CookieJar::add_original`.
///
/// Trusted: the parsed cookie's name and value are those that
/// `parsed_cookie` names for the piece; `add_original` replaces the jar's
/// original cookie of that name (its set compares cookies by name) and
/// leaves the delta as it was.
#[verifier::external_body]
fn add_original(jar: &mut cookie::CookieJar, piece: String)
    ensures
        jar_delta(*final(jar)) == jar_delta(*old(jar)),
        jar_originals(*final(jar)) == match parsed_cookie(piece@) {
            Some((name, value)) => jar_originals(*old(jar)).insert(name, value),
            None => jar_originals(*old(jar)),
        },
{
    if let Ok(c) = cookie::Cookie::parse_encoded(piece) {
        jar.add_original(c);
    }
}

/// The original cookies `m` with the cookie that the header piece `piece`
/// holds, where it parses.
pub open spec fn with_piece(m: Map<Seq<char>, Seq<char>>, piece: Seq<u8>) -> Map<Seq<char>, Seq<char>> {
    match parsed_cookie(decode_utf8(piece)) {
        Some((name, value)) => m.insert(name, value),
        None => m,
    }
}

/// The original cookies `m` with those of the `;`-separated pieces of the
/// header value `v`, in order.
pub open spec fn with_pieces(m: Map<Seq<char>, Seq<char>>, v: Seq<u8>) -> Map<Seq<char>, Seq<char>>
    decreases v.len(),
{
    match crate::text::find_byte(v, 0x3bu8) {
        None => with_piece(m, v),
        Some(k) => {
            proof {
                crate::text::lemma_find_byte_from(v, 0x3bu8, 0);
            }
            with_pieces(with_piece(m, v.subrange(0, k)), v.subrange(k + 1, v.len() as int))
        },
    }
}

/// The encoded cookies of the jar's delta, with `CookieJar::delta` and
/// `Cookie::encoded`, in the order the jar's hash set gives them.
///
/// Trusted: the strings are those of the delta, each once; the order is
/// left open, as the source walks a hash set.
#[verifier::external_body]
fn delta_encoded(jar: &cookie::CookieJar) -> (r: Vec<String>)
    ensures
        r@.map_values(|s: String| s@).to_multiset() == jar_delta(*jar),
{
    let mut out = Vec::new();
    for c in jar.delta() {
        out.push(c.encoded().to_string());
    }
    out
}

/// Loads the cookies of the request's `Cookie` header value into the jar:
/// each `;`-separated piece of a visible ASCII value that parses as a
/// cookie becomes an original cookie, in order. The jar's delta stays as it
/// was.
pub fn load_cookies(jar: &mut cookie::CookieJar, cookie_header: Option<&[u8]>)
    ensures
        jar_delta(*final(jar)) == jar_delta(*old(jar)),
        jar_originals(*final(jar)) == match cookie_header {
            Some(v) => if visible_ascii(v@) {
                with_pieces(jar_originals(*old(jar)), v@)
            } else {
                jar_originals(*old(jar))
            },
            None => jar_originals(*old(jar)),
        },
{
    let v = match cookie_header {
        Some(v) => v,
        None => return,
    };
    if !crate::extract::host::is_visible_ascii(v) {
        return;
    }
    let ghost target = with_pieces(jar_originals(*jar), v@);
    let mut rest = v;
    loop
        invariant
            jar_delta(*jar) == jar_delta(*old(jar)),
            visible_ascii(rest@),
            cookie_header == Some(v),
            visible_ascii(v@),
            target == with_pieces(jar_originals(*old(jar)), v@),
            target == with_pieces(jar_originals(*jar), rest@),
        decreases rest@.len(),
    {
        proof {
            crate::text::lemma_find_byte_from(rest@, 0x3bu8, 0);
        }
        let mut k: usize = 0;
        while k < rest.len() && rest[k] != 0x3b
            invariant
                k <= rest@.len(),
                forall|j: int| 0 <= j < k ==> rest@[j] != 0x3b,
            decreases rest@.len() - k,
        {
            k += 1;
        }
        let piece = vstd::slice::slice_subrange(rest, 0, k);
        assert(visible_ascii(piece@));
        let s = crate::extract::host::visible_string(piece);
        proof {
            encode_utf8_decode_utf8(s@);
        }
        assert(s@ == decode_utf8(piece@));
        let ghost before = jar_originals(*jar);
        add_original(jar, s);
        assert(jar_originals(*jar) == with_piece(before, piece@));
        if k == rest.len() {
            assert(crate::text::find_byte(rest@, 0x3bu8) is None);
            assert(piece@ =~= rest@);
            return;
        }
        assert(crate::text::find_byte(rest@, 0x3bu8) == Some(k as int));
        rest = vstd::slice::slice_subrange(rest, k + 1, rest.len());
    }
}

/// A byte that `HeaderValue::from_str` accepts.
pub open spec fn is_header_byte(b: u8) -> bool {
    (b >= 32 && b != 127) || b == 0x09
}

/// All bytes are ones that `HeaderValue::from_str` accepts.
pub open spec fn valid_header_value(v: Seq<u8>) -> bool {
    forall|i: int| 0 <= i < v.len() ==> is_header_byte(#[trigger] v[i])
}

/// The encoded cookies after the first, each preceded by `;`.
pub open spec fn rest_cookies(delta: Seq<Seq<char>>) -> Seq<u8>
    decreases delta.len(),
{
    if delta.len() <= 1 {
        Seq::empty()
    } else {
        rest_cookies(delta.drop_last()) + seq![0x3bu8] + encode_utf8(delta.last())
    }
}

/// The encoded cookies of a non-empty delta, joined by `;`.
pub open spec fn joined_cookies(delta: Seq<Seq<char>>) -> Seq<u8> {
    encode_utf8(delta[0]) + rest_cookies(delta)
}

/// The pieces of `s` between the bytes `;`, in order.
pub open spec fn split_semicolons(s: Seq<u8>) -> Seq<Seq<u8>>
    decreases s.len(),
{
    match crate::text::find_byte(s, 0x3bu8) {
        None => seq![s],
        Some(k) => {
            proof {
                crate::text::lemma_find_byte_from(s, 0x3bu8, 0);
            }
            seq![s.subrange(0, k)] + split_semicolons(s.subrange(k + 1, s.len() as int))
        },
    }
}

/// Splitting at a `;` between `a` and `b` gives the pieces of `a`, then
/// those of `b`.
proof fn lemma_split_concat(a: Seq<u8>, b: Seq<u8>)
    ensures
        split_semicolons(a + seq![0x3bu8] + b) == split_semicolons(a) + split_semicolons(b),
    decreases a.len(),
{
    let ab = a + seq![0x3bu8] + b;
    crate::text::lemma_find_byte_from(a, 0x3bu8, 0);
    crate::text::lemma_find_byte_from(ab, 0x3bu8, 0);
    match crate::text::find_byte(a, 0x3bu8) {
        None => {
            assert(ab[a.len() as int] == 0x3b);
            assert(crate::text::find_byte(ab, 0x3bu8) == Some(a.len() as int));
            assert(ab.subrange(0, a.len() as int) =~= a);
            assert(ab.subrange(a.len() as int + 1, ab.len() as int) =~= b);
        },
        Some(k) => {
            assert(ab[k] == 0x3b);
            assert(crate::text::find_byte(ab, 0x3bu8) == Some(k));
            let a2 = a.subrange(k + 1, a.len() as int);
            lemma_split_concat(a2, b);
            assert(ab.subrange(0, k) =~= a.subrange(0, k));
            assert(ab.subrange(k + 1, ab.len() as int) =~= a2 + seq![0x3bu8] + b);
            assert(split_semicolons(ab) =~= split_semicolons(a) + split_semicolons(b));
        },
    }
}

/// The encoded cookies, joined by `;`, split back into themselves where
/// none of them holds a `;`.
proof fn lemma_split_joined(delta: Seq<Seq<char>>)
    requires
        delta.len() > 0,
        forall|i: int| 0 <= i < delta.len() ==> !(#[trigger] encode_utf8(delta[i])).contains(0x3bu8),
    ensures
        split_semicolons(joined_cookies(delta)) == delta.map_values(|c: Seq<char>| encode_utf8(c)),
    decreases delta.len(),
{
    if delta.len() == 1 {
        let e = encode_utf8(delta[0]);
        crate::text::lemma_find_byte_from(e, 0x3bu8, 0);
        if crate::text::find_byte(e, 0x3bu8) is Some {
            let k = crate::text::find_byte(e, 0x3bu8)->0;
            assert(e.contains(e[k]));
        }
        assert(joined_cookies(delta) =~= e);
        assert(split_semicolons(e) =~= delta.map_values(|c: Seq<char>| encode_utf8(c)));
    } else {
        let d = delta.drop_last();
        assert(forall|i: int| 0 <= i < d.len() ==> d[i] == delta[i]);
        lemma_split_joined(d);
        let last = encode_utf8(delta.last());
        assert(joined_cookies(delta) =~= joined_cookies(d) + seq![0x3bu8] + last);
        lemma_split_concat(joined_cookies(d), last);
        lemma_split_joined(seq![delta.last()]);
        assert(joined_cookies(seq![delta.last()]) =~= last);
        assert(delta.map_values(|c: Seq<char>| encode_utf8(c)) =~= d.map_values(|c: Seq<char>| encode_utf8(c))
            + seq![delta.last()].map_values(|c: Seq<char>| encode_utf8(c)));
    }
}

/// Each cookie of the delta is a `;`-separated piece of the `Set-Cookie`
/// value of its own, in the order given, where no cookie holds a `;`; a
/// merged existing value follows with its own pieces.
pub proof fn law_set_cookie_pieces(delta: Seq<Seq<char>>, existing: Option<Seq<u8>>)
    requires
        forall|i: int| 0 <= i < delta.len() ==> !(#[trigger] encode_utf8(delta[i])).contains(0x3bu8),
    ensures
        spec_set_cookie(delta, existing) matches Some(h) ==> {
            let cookies = delta.map_values(|c: Seq<char>| encode_utf8(c));
            ||| split_semicolons(h) == cookies
            ||| existing matches Some(v) && split_semicolons(h) == cookies + split_semicolons(v)
        },
{
    if delta.len() > 0 {
        lemma_split_joined(delta);
        if let Some(v) = existing {
            lemma_split_concat(joined_cookies(delta), v);
        }
    }
}

/// The `Set-Cookie` value for the jar's delta, given in the order it is
/// walked, where the response already has `existing`: `None` for an empty
/// delta or a value that is no header value; otherwise the cookies joined
/// by `;`, then `;` and a visible existing value where the whole is still a
/// header value.
pub open spec fn spec_set_cookie(delta: Seq<Seq<char>>, existing: Option<Seq<u8>>) -> Option<Seq<u8>> {
    if delta.len() == 0 {
        None
    } else {
        let header = joined_cookies(delta);
        if !valid_header_value(header) {
            None
        } else {
            match existing {
                Some(v) => if visible_ascii(v) && valid_header_value(header + seq![0x3bu8] + v) {
                    Some(header + seq![0x3bu8] + v)
                } else {
                    Some(header)
                },
                None => Some(header),
            }
        }
    }
}

/// Every byte is one that `HeaderValue::from_str` accepts.
fn is_header_value(v: &[u8]) -> (r: bool)
    ensures
        r == valid_header_value(v@),
{
    let mut i: usize = 0;
    while i < v.len()
        invariant
            i <= v@.len(),
            forall|k: int| 0 <= k < i ==> is_header_byte(#[trigger] v@[k]),
        decreases v@.len() - i,
    {
        let b = v[i];
        if !((b >= 32 && b != 127) || b == 0x09) {
            assert(!is_header_byte(v@[i as int]));
            return false;
        }
        i += 1;
    }
    true
}


/// The `Set-Cookie` value for the encoded cookies of a delta, in the order
/// given, where the response already has the `Set-Cookie` value
/// `existing`.
pub fn set_cookie_header(delta: &Vec<String>, existing: Option<&[u8]>) -> (r: Option<Vec<u8>>)
    ensures
        match (r, spec_set_cookie(delta@.map_values(|s: String| s@), opt_bytes(existing))) {
            (Some(v), Some(sv)) => v@ == sv,
            (None, None) => true,
            _ => false,
        },
{
    let ghost ds = delta@.map_values(|s: String| s@);
    if delta.len() == 0 {
        return None;
    }
    let mut header: Vec<u8> = Vec::new();
    extend(&mut header, crate::text::as_str_bytes(&delta[0]).as_bytes());
    assert(header@ == encode_utf8(ds[0]) + rest_cookies(ds.subrange(0, 1)));
    let mut i: usize = 1;
    while i < delta.len()
        invariant
            1 <= i <= delta@.len(),
            ds == delta@.map_values(|s: String| s@),
            header@ == encode_utf8(ds[0]) + rest_cookies(ds.subrange(0, i as int)),
        decreases delta@.len() - i,
    {
        header.push(0x3b);
        extend(&mut header, crate::text::as_str_bytes(&delta[i]).as_bytes());
        assert(ds.subrange(0, i + 1).drop_last() =~= ds.subrange(0, i as int));
        assert(header@ =~= encode_utf8(ds[0]) + rest_cookies(ds.subrange(0, i + 1)));
        i += 1;
    }
    assert(ds.subrange(0, i as int) =~= ds);
    if !is_header_value(header.as_slice()) {
        return None;
    }
    match existing {
        Some(v) => {
            if crate::extract::host::is_visible_ascii(v) {
                let mut merged = header.clone();
                assert(merged@ =~= header@);
                merged.push(0x3b);
                extend(&mut merged, v);
                if is_header_value(merged.as_slice()) {
                    return Some(merged);
                }
            }
            Some(header)
        },
        None => Some(header),
    }
}

/// The bytes of an optional header value.
pub open spec fn opt_bytes(v: Option<&[u8]>) -> Option<Seq<u8>> {
    match v {
        Some(b) => Some(b@),
        None => None,
    }
}

/// The `Set-Cookie` value for the jar's changes, where the response
/// already has the `Set-Cookie` value `existing`: that of the delta's
/// cookies in the order the jar walks them.
pub fn store_cookies(jar: &cookie::CookieJar, existing: Option<&[u8]>) -> (r: Option<Vec<u8>>)
    ensures
        exists|order: Seq<Seq<char>>|
            order.to_multiset() == jar_delta(*jar) && match (r, spec_set_cookie(order, opt_bytes(existing))) {
                (Some(v), Some(sv)) => v@ == sv,
                (None, None) => true,
                _ => false,
            },
{
    let delta = delta_encoded(jar);
    let r = set_cookie_header(&delta, existing);
    assert(delta@.map_values(|s: String| s@).to_multiset() == jar_delta(*jar));
    r
}

} // verus!
