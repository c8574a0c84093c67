//! The hostname of a request.
use vstd::prelude::*;
use vstd::utf8::*;

use crate::text::string_from_utf8;

verus! {

/// Extractor that resolves the hostname of the request.
///
/// Hostname is resolved through the following, in order:
/// - `Forwarded` header
/// - `X-Forwarded-Host` header
/// - `Host` header
/// - request target / URI
#[derive(Debug, Clone)]
pub struct Host(pub String);

/// A header value byte that `HeaderValue::to_str` accepts: visible ASCII
/// or a tab.
pub open spec fn is_visible(b: u8) -> bool {
    (0x20 <= b < 0x7f) || b == 0x09
}

/// The header value reads as a string: every byte is visible ASCII or a
/// tab.
pub open spec fn visible_ascii(v: Seq<u8>) -> bool {
    forall|i: int| 0 <= i < v.len() ==> is_visible(#[trigger] v[i])
}

/// Whitespace that `str::trim` removes from a header value.
pub open spec fn is_space(b: u8) -> bool {
    b == 0x20 || b == 0x09
}

/// `s` with the bytes `drop` holds of removed from the front.
pub open spec fn trim_start_by(s: Seq<u8>, drop: spec_fn(u8) -> bool) -> Seq<u8>
    decreases s.len(),
{
    if s.len() > 0 && drop(s[0]) {
        trim_start_by(s.drop_first(), drop)
    } else {
        s
    }
}

/// `s` with the bytes `drop` holds of removed from the back.
pub open spec fn trim_end_by(s: Seq<u8>, drop: spec_fn(u8) -> bool) -> Seq<u8>
    decreases s.len(),
{
    if s.len() > 0 && drop(s.last()) {
        trim_end_by(s.drop_last(), drop)
    } else {
        s
    }
}

/// `s` with the bytes `drop` holds of removed from both ends.
pub open spec fn trim_by(s: Seq<u8>, drop: spec_fn(u8) -> bool) -> Seq<u8> {
    trim_end_by(trim_start_by(s, drop), drop)
}

/// `s` trimmed of spaces and tabs at both ends.
pub open spec fn spaces_trimmed(s: Seq<u8>) -> Seq<u8> {
    trim_by(s, |b: u8| is_space(b))
}

/// `s` trimmed of double quotes at both ends.
pub open spec fn quotes_trimmed(s: Seq<u8>) -> Seq<u8> {
    trim_by(s, |b: u8| b == 0x22)
}

/// The bytes of `host`.
pub open spec fn host_name() -> Seq<u8> {
    seq![0x68u8, 0x6f, 0x73, 0x74]
}

/// The host that one `key=value` pair of a `Forwarded` element gives: the
/// value, trimmed of whitespace and quotes, where the trimmed key is `host`
/// up to ASCII case.
pub open spec fn host_of_pair(pair: Seq<u8>) -> Option<Seq<u8>> {
    match crate::text::find_byte(pair, 0x3du8) {
        None => None,
        Some(eq) => {
            let key = spaces_trimmed(pair.subrange(0, eq));
            if crate::router::fix::eq_ignore_case(key, host_name()) {
                Some(quotes_trimmed(spaces_trimmed(pair.subrange(eq + 1, pair.len() as int))))
            } else {
                None
            }
        },
    }
}

/// The host that the `;`-separated pairs of `element` give: that of the
/// first pair that gives one.
pub open spec fn host_of_element(element: Seq<u8>) -> Option<Seq<u8>>
    decreases element.len(),
{
    match crate::text::find_byte(element, 0x3bu8) {
        None => host_of_pair(element),
        Some(semi) => match host_of_pair(element.subrange(0, semi)) {
            Some(h) => Some(h),
            None => {
                proof {
                    crate::text::lemma_find_byte_from(element, 0x3bu8, 0);
                }
                host_of_element(element.subrange(semi + 1, element.len() as int))
            },
        },
    }
}

/// The host that a `Forwarded` header value gives: that of its first
/// `,`-separated element.
pub open spec fn spec_parse_forwarded(value: Seq<u8>) -> Option<Seq<u8>> {
    let first = match crate::text::find_byte(value, 0x2cu8) {
        Some(c) => value.subrange(0, c),
        None => value,
    };
    host_of_element(first)
}

/// Dropping bytes that `drop` holds of from the front of `s` leaves the
/// same trimmed start.
proof fn lemma_trim_start(s: Seq<u8>, drop: spec_fn(u8) -> bool, i: int)
    requires
        0 <= i <= s.len(),
        forall|k: int| 0 <= k < i ==> drop(#[trigger] s[k]),
    ensures
        trim_start_by(s, drop) == trim_start_by(s.subrange(i, s.len() as int), drop),
    decreases i,
{
    if i > 0 {
        assert(s.drop_first().subrange(i - 1, s.drop_first().len() as int) =~= s.subrange(i, s.len() as int));
        assert forall|k: int| 0 <= k < i - 1 implies drop(#[trigger] s.drop_first()[k]) by {
            assert(s.drop_first()[k] == s[k + 1]);
        }
        lemma_trim_start(s.drop_first(), drop, i - 1);
    } else {
        assert(s.subrange(0, s.len() as int) =~= s);
    }
}

/// Dropping bytes that `drop` holds of from the back of `s` leaves the same
/// trimmed end.
proof fn lemma_trim_end(s: Seq<u8>, drop: spec_fn(u8) -> bool, j: int)
    requires
        0 <= j <= s.len(),
        forall|k: int| j <= k < s.len() ==> drop(#[trigger] s[k]),
    ensures
        trim_end_by(s, drop) == trim_end_by(s.subrange(0, j), drop),
    decreases s.len() - j,
{
    if j < s.len() {
        assert(s.drop_last().subrange(0, j) =~= s.subrange(0, j));
        lemma_trim_end(s.drop_last(), drop, j);
    } else {
        assert(s.subrange(0, j) =~= s);
    }
}

/// The byte is a double quote where `quotes` is set, a space or tab
/// otherwise.
fn trimmed_byte(b: u8, quotes: bool) -> (r: bool)
    ensures
        r == if quotes {
            b == 0x22
        } else {
            is_space(b)
        },
{
    if quotes {
        b == 0x22
    } else {
        b == 0x20 || b == 0x09
    }
}

/// `s` trimmed at both ends of the bytes that `quotes` selects: double
/// quotes where it is set, spaces and tabs otherwise.
fn trim(s: &[u8], quotes: bool) -> (r: &[u8])
    ensures
        r@ == if quotes {
            quotes_trimmed(s@)
        } else {
            spaces_trimmed(s@)
        },
{
    let ghost drop = if quotes {
        |b: u8| b == 0x22
    } else {
        |b: u8| is_space(b)
    };
    let mut i: usize = 0;
    while i < s.len() && trimmed_byte(s[i], quotes)
        invariant
            i <= s@.len(),
            forall|k: int| 0 <= k < i ==> drop(#[trigger] s@[k]),
            drop == if quotes {
                |b: u8| b == 0x22
            } else {
                |b: u8| is_space(b)
            },
        decreases s@.len() - i,
    {
        i += 1;
    }
    proof {
        lemma_trim_start(s@, drop, i as int);
    }
    let ghost t = s@.subrange(i as int, s@.len() as int);
    assert(trim_start_by(s@, drop) == t);
    let mut j: usize = s.len();
    while j > i && trimmed_byte(s[j - 1], quotes)
        invariant
            i <= j <= s@.len(),
            t == s@.subrange(i as int, s@.len() as int),
            forall|k: int| j <= k < s@.len() ==> drop(#[trigger] s@[k]),
            drop == if quotes {
                |b: u8| b == 0x22
            } else {
                |b: u8| is_space(b)
            },
        decreases j,
    {
        j -= 1;
    }
    proof {
        assert forall|k: int| j - i <= k < t.len() implies drop(#[trigger] t[k]) by {
            assert(t[k] == s@[k + i]);
        }
        lemma_trim_end(t, drop, j - i);
        assert(t.subrange(0, j - i) =~= s@.subrange(i as int, j as int));
    }
    vstd::slice::slice_subrange(s, i, j)
}

/// The host that one `key=value` pair gives.
fn pair_host(pair: &[u8]) -> (r: Option<&[u8]>)
    ensures
        match r {
            Some(h) => host_of_pair(pair@) == Some(h@),
            None => host_of_pair(pair@) is None,
        },
{
    proof {
        crate::text::lemma_find_byte_from(pair@, 0x3du8, 0);
    }
    let mut eq: usize = 0;
    while eq < pair.len() && pair[eq] != 0x3d
        invariant
            eq <= pair@.len(),
            forall|k: int| 0 <= k < eq ==> pair@[k] != 0x3d,
        decreases pair@.len() - eq,
    {
        eq += 1;
    }
    if eq == pair.len() {
        assert(crate::text::find_byte(pair@, 0x3du8) is None);
        return None;
    }
    assert(crate::text::find_byte(pair@, 0x3du8) == Some(eq as int));
    let key = trim(vstd::slice::slice_subrange(pair, 0, eq), false);
    let name: [u8; 4] = [0x68, 0x6f, 0x73, 0x74];
    assert(name@ =~= host_name());
    if crate::router::fix::eq_ignore_ascii_case(key, &name) {
        let value = trim(vstd::slice::slice_subrange(pair, eq + 1, pair.len()), false);
        Some(trim(value, true))
    } else {
        None
    }
}

/// The host that a `Forwarded` header gives: the `host` pair of its first
/// element. `None` where there is no such header, where its value is not
/// visible ASCII, or where the element has no `host` pair.
pub fn parse_forwarded(forwarded: Option<&[u8]>) -> (r: Option<&[u8]>)
    ensures
        match forwarded {
            None => r is None,
            Some(v) => if visible_ascii(v@) {
                match r {
                    Some(h) => spec_parse_forwarded(v@) == Some(h@),
                    None => spec_parse_forwarded(v@) is None,
                }
            } else {
                r is None
            },
        },
{
    let value = match forwarded {
        Some(v) => v,
        None => return None,
    };
    if !is_visible_ascii(value) {
        return None;
    }
    proof {
        crate::text::lemma_find_byte_from(value@, 0x2cu8, 0);
    }
    let mut c: usize = 0;
    while c < value.len() && value[c] != 0x2c
        invariant
            c <= value@.len(),
            forall|k: int| 0 <= k < c ==> value@[k] != 0x2c,
        decreases value@.len() - c,
    {
        c += 1;
    }
    let first = vstd::slice::slice_subrange(value, 0, c);
    if c == value.len() {
        assert(first@ =~= value@);
    } else {
        assert(crate::text::find_byte(value@, 0x2cu8) == Some(c as int));
    }
    let mut rest = first;
    assert(spec_parse_forwarded(value@) == host_of_element(first@));
    loop
        invariant
            forwarded == Some(value),
            visible_ascii(value@),
            spec_parse_forwarded(value@) == host_of_element(rest@),
        decreases rest@.len(),
    {
        proof {
            crate::text::lemma_find_byte_from(rest@, 0x3bu8, 0);
        }
        let mut k: usize = 0;
        while k < rest.len() && rest[k] != 0x3b
            invariant
                k <= rest@.len(),
                forall|j: int| 0 <= j < k ==> rest@[j] != 0x3b,
            decreases rest@.len() - k,
        {
            k += 1;
        }
        if k == rest.len() {
            assert(crate::text::find_byte(rest@, 0x3bu8) is None);
            return pair_host(rest);
        }
        assert(crate::text::find_byte(rest@, 0x3bu8) == Some(k as int));
        match pair_host(vstd::slice::slice_subrange(rest, 0, k)) {
            Some(h) => return Some(h),
            None => {
                rest = vstd::slice::slice_subrange(rest, k + 1, rest.len());
            },
        }
    }
}

/// Every byte is visible ASCII or a tab.
pub(crate) fn is_visible_ascii(v: &[u8]) -> (r: bool)
    ensures
        r == visible_ascii(v@),
{
    let mut i: usize = 0;
    while i < v.len()
        invariant
            i <= v@.len(),
            forall|k: int| 0 <= k < i ==> is_visible(#[trigger] v@[k]),
        decreases v@.len() - i,
    {
        let b = v[i];
        if !((0x20 <= b && b < 0x7f) || b == 0x09) {
            assert(!is_visible(v@[i as int]));
            return false;
        }
        i += 1;
    }
    true
}

proof fn lemma_trim_visible(s: Seq<u8>, drop: spec_fn(u8) -> bool)
    requires
        visible_ascii(s),
    ensures
        visible_ascii(trim_start_by(s, drop)),
        visible_ascii(trim_end_by(s, drop)),
    decreases s.len(),
{
    if s.len() > 0 {
        assert(visible_ascii(s.drop_first()));
        assert(visible_ascii(s.drop_last()));
        lemma_trim_visible(s.drop_first(), drop);
        lemma_trim_visible(s.drop_last(), drop);
    }
}

proof fn lemma_trim_by_visible(s: Seq<u8>, drop: spec_fn(u8) -> bool)
    requires
        visible_ascii(s),
    ensures
        visible_ascii(trim_by(s, drop)),
{
    lemma_trim_visible(s, drop);
    lemma_trim_visible(trim_start_by(s, drop), drop);
}

proof fn lemma_element_visible(e: Seq<u8>)
    requires
        visible_ascii(e),
    ensures
        host_of_element(e) matches Some(h) ==> visible_ascii(h),
    decreases e.len(),
{
    crate::text::lemma_find_byte_from(e, 0x3bu8, 0);
    lemma_pair_visible(e);
    if let Some(semi) = crate::text::find_byte(e, 0x3bu8) {
        lemma_pair_visible(e.subrange(0, semi));
        lemma_element_visible(e.subrange(semi + 1, e.len() as int));
    }
}

proof fn lemma_pair_visible(p: Seq<u8>)
    requires
        visible_ascii(p),
    ensures
        host_of_pair(p) matches Some(h) ==> visible_ascii(h),
{
    crate::text::lemma_find_byte_from(p, 0x3du8, 0);
    if let Some(eq) = crate::text::find_byte(p, 0x3du8) {
        let v = p.subrange(eq + 1, p.len() as int);
        lemma_trim_by_visible(v, |b: u8| is_space(b));
        lemma_trim_by_visible(spaces_trimmed(v), |b: u8| b == 0x22);
    }
}

/// The host that a visible ASCII `Forwarded` value gives is visible ASCII.
proof fn lemma_forwarded_visible(v: Seq<u8>)
    requires
        visible_ascii(v),
    ensures
        spec_parse_forwarded(v) matches Some(h) ==> visible_ascii(h),
{
    crate::text::lemma_find_byte_from(v, 0x2cu8, 0);
    let first = match crate::text::find_byte(v, 0x2cu8) {
        Some(c) => v.subrange(0, c),
        None => v,
    };
    lemma_element_visible(first);
}

/// Bytes below 0x80 are valid UTF-8.
pub proof fn lemma_ascii_valid_utf8(s: Seq<u8>)
    requires
        forall|i: int| 0 <= i < s.len() ==> #[trigger] s[i] < 0x80,
    ensures
        valid_utf8(s),
    decreases s.len(),
{
    if s.len() > 0 {
        assert(valid_first_scalar(s));
        assert(pop_first_scalar(s) =~= s.drop_first());
        lemma_ascii_valid_utf8(s.drop_first());
    }
}

/// The hostname bytes that the request gives, in order of precedence: the
/// `host` of the `Forwarded` header, the `X-Forwarded-Host` header, the
/// `Host` header (each only where it is visible ASCII), the uri's host.
pub open spec fn spec_resolve_host(
    forwarded: Option<Seq<u8>>,
    x_forwarded_host: Option<Seq<u8>>,
    host: Option<Seq<u8>>,
    uri_host: Option<Seq<u8>>,
) -> Option<Seq<u8>> {
    let from_forwarded = match forwarded {
        Some(v) => if visible_ascii(v) {
            spec_parse_forwarded(v)
        } else {
            None
        },
        None => None,
    };
    if from_forwarded is Some {
        from_forwarded
    } else if x_forwarded_host matches Some(x) && visible_ascii(x) {
        x_forwarded_host
    } else if host matches Some(h) && visible_ascii(h) {
        host
    } else {
        uri_host
    }
}

/// The host that a `Forwarded` header value names, where it is visible
/// ASCII.
pub open spec fn forwarded_host(forwarded: Option<Seq<u8>>) -> Option<Seq<u8>> {
    match forwarded {
        Some(f) => if visible_ascii(f) {
            spec_parse_forwarded(f)
        } else {
            None
        },
        None => None,
    }
}

/// A header value that is present and visible ASCII.
pub open spec fn usable(v: Option<Seq<u8>>) -> bool {
    v matches Some(x) && visible_ascii(x)
}

/// The precedence of the sources of the host: a `Forwarded` header that is
/// visible ASCII and names a host wins; where none does, whatever else it
/// holds, a visible `X-Forwarded-Host` header; then a visible `Host`
/// header; then the uri's host.
pub proof fn law_host_precedence(
    forwarded: Option<Seq<u8>>,
    x_forwarded_host: Option<Seq<u8>>,
    host: Option<Seq<u8>>,
    uri_host: Option<Seq<u8>>,
)
    ensures
        forwarded_host(forwarded) is Some ==> spec_resolve_host(forwarded, x_forwarded_host, host, uri_host)
            == forwarded_host(forwarded),
        forwarded_host(forwarded) is None && usable(x_forwarded_host) ==> spec_resolve_host(
            forwarded,
            x_forwarded_host,
            host,
            uri_host,
        ) == x_forwarded_host,
        forwarded_host(forwarded) is None && !usable(x_forwarded_host) && usable(host) ==> spec_resolve_host(
            forwarded,
            x_forwarded_host,
            host,
            uri_host,
        ) == host,
        forwarded_host(forwarded) is None && !usable(x_forwarded_host) && !usable(host) ==> spec_resolve_host(
            forwarded,
            x_forwarded_host,
            host,
            uri_host,
        ) == uri_host,
{
}

/// Only the first element of a `Forwarded` value counts: whatever follows
/// the first `,` leaves the host it gives unchanged, and a value with a
/// single element gives the host of that element's first `host` pair.
pub proof fn law_forwarded_first_element(first: Seq<u8>, others: Seq<u8>)
    requires
        forall|k: int| 0 <= k < first.len() ==> #[trigger] first[k] != 0x2cu8,
    ensures
        spec_parse_forwarded(first + seq![0x2cu8] + others) == spec_parse_forwarded(first),
        spec_parse_forwarded(first) == host_of_element(first),
{
    let v = first + seq![0x2cu8] + others;
    crate::text::lemma_find_byte_from(v, 0x2cu8, 0);
    crate::text::lemma_find_byte_from(first, 0x2cu8, 0);
    assert(v[first.len() as int] == 0x2cu8);
    assert(crate::text::find_byte(v, 0x2cu8) == Some(first.len() as int)) by {
        match crate::text::find_byte(v, 0x2cu8) {
            Some(c) => {
                if c < first.len() {
                    assert(v[c] == first[c]);
                }
            },
            None => {},
        }
    }
    assert(v.subrange(0, first.len() as int) =~= first);
}

/// Within an element, pairs are read in order: a `key=value` pair whose
/// key, trimmed, is not `host` is passed over, whatever it holds, and the
/// first pair whose key is `host` up to ASCII case gives its value, trimmed
/// of whitespace and quotes, whatever follows it.
pub proof fn law_forwarded_pairs(key: Seq<u8>, value: Seq<u8>, others: Seq<u8>)
    requires
        forall|k: int| 0 <= k < key.len() ==> #[trigger] key[k] != 0x3du8 && key[k] != 0x3bu8,
        forall|k: int| 0 <= k < value.len() ==> #[trigger] value[k] != 0x3bu8,
    ensures
        !crate::router::fix::eq_ignore_case(spaces_trimmed(key), host_name()) ==> host_of_element(
            key + seq![0x3du8] + value + seq![0x3bu8] + others,
        ) == host_of_element(others),
        crate::router::fix::eq_ignore_case(spaces_trimmed(key), host_name()) ==> host_of_element(
            key + seq![0x3du8] + value + seq![0x3bu8] + others,
        ) == Some(quotes_trimmed(spaces_trimmed(value))) && host_of_element(
            key + seq![0x3du8] + value,
        ) == Some(quotes_trimmed(spaces_trimmed(value))),
{
    let pair = key + seq![0x3du8] + value;
    let e = pair + seq![0x3bu8] + others;
    let kl = key.len() as int;
    crate::text::lemma_find_byte_from(pair, 0x3du8, 0);
    assert(pair[kl] == 0x3du8);
    assert(crate::text::find_byte(pair, 0x3du8) == Some(kl)) by {
        match crate::text::find_byte(pair, 0x3du8) {
            Some(c) => {
                if c < kl {
                    assert(pair[c] == key[c]);
                }
            },
            None => {},
        }
    }
    assert(pair.subrange(0, kl) =~= key);
    assert(pair.subrange(kl + 1, pair.len() as int) =~= value);
    crate::text::lemma_find_byte_from(e, 0x3bu8, 0);
    crate::text::lemma_find_byte_from(pair, 0x3bu8, 0);
    assert forall|k: int| 0 <= k < pair.len() implies #[trigger] pair[k] != 0x3bu8 by {
        if k < kl {
            assert(pair[k] == key[k]);
        } else if k > kl {
            assert(pair[k] == value[k - kl - 1]);
        }
    }
    assert(e[pair.len() as int] == 0x3bu8);
    assert(crate::text::find_byte(e, 0x3bu8) == Some(pair.len() as int)) by {
        match crate::text::find_byte(e, 0x3bu8) {
            Some(c) => {
                if c < pair.len() {
                    assert(e[c] == pair[c]);
                }
            },
            None => {},
        }
    }
    assert(e.subrange(0, pair.len() as int) =~= pair);
    assert(e.subrange(pair.len() as int + 1, e.len() as int) =~= others);
    assert(crate::text::find_byte(pair, 0x3bu8) is None);
}

/// Visible ASCII bytes are valid UTF-8.
pub proof fn lemma_visible_valid(v: Seq<u8>)
    requires
        visible_ascii(v),
    ensures
        valid_utf8(v),
{
    assert forall|i: int| 0 <= i < v.len() implies #[trigger] v[i] < 0x80 by {
        assert(is_visible(v[i]));
    }
    lemma_ascii_valid_utf8(v);
}

/// The bytes of an optional header value.
pub open spec fn opt_bytes(v: Option<&[u8]>) -> Option<Seq<u8>> {
    match v {
        Some(b) => Some(b@),
        None => None,
    }
}

/// A visible ASCII header value as a string.
pub(crate) fn visible_string(v: &[u8]) -> (r: String)
    requires
        visible_ascii(v@),
    ensures
        encode_utf8(r@) == v@,
{
    proof {
        assert forall|i: int| 0 <= i < v@.len() implies #[trigger] v@[i] < 0x80 by {
            assert(is_visible(v@[i]));
        }
        lemma_ascii_valid_utf8(v@);
    }
    match string_from_utf8(v) {
        Some(s) => {
            proof {
                decode_utf8_encode_utf8(v@);
            }
            s
        },
        None => vstd::pervasive::unreached(),
    }
}

impl Host {
    /// Resolves the hostname from the first `Forwarded` header value, the
    /// `X-Forwarded-Host` and `Host` header values, and the host of the
    /// request uri, in that order of precedence; `None` where none gives one.
    pub fn resolve(
        forwarded: Option<&[u8]>,
        x_forwarded_host: Option<&[u8]>,
        host: Option<&[u8]>,
        uri_host: Option<&str>,
    ) -> (r: Option<Host>)
        ensures
            match spec_resolve_host(
                opt_bytes(forwarded),
                opt_bytes(x_forwarded_host),
                opt_bytes(host),
                match uri_host {
                    Some(u) => Some(encode_utf8(u@)),
                    None => None,
                },
            ) {
                Some(b) => r matches Some(h) && encode_utf8(h.0@) == b,
                None => r is None,
            },
    {
        if let Some(h) = parse_forwarded(forwarded) {
            proof {
                lemma_forwarded_visible(forwarded.unwrap()@);
            }
            return Some(Host(visible_string(h)));
        }
        if let Some(x) = x_forwarded_host {
            if is_visible_ascii(x) {
                return Some(Host(visible_string(x)));
            }
        }
        if let Some(x) = host {
            if is_visible_ascii(x) {
                return Some(Host(visible_string(x)));
            }
        }
        if let Some(u) = uri_host {
            proof {
                crate::text::lemma_str_view(u);
            }
            let s = u.to_owned();
            return Some(Host(s));
        }
        None
    }
}

} // verus!
