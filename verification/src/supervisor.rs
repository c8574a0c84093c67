//! The request supervisor: the bytes of a response on the wire, and what
//! the supervisor of a connection does on each message from its worker.
use vstd::prelude::*;
use vstd::string::StringSliceAdditionalSpecFns;
use vstd::utf8::*;

use crate::text::extend;

verus! {

/// The reason phrase that `http` gives for a status code, if it knows one.
pub uninterp spec fn status_reason(code: u16) -> Option<Seq<char>>;

/// The canonical reason phrase of a status code, with
/// `http::StatusCode::canonical_reason`.
///
/// Trusted: the phrase is the one that `status_reason` names for the code.
#[verifier::external_body]
fn canonical_reason(code: u16) -> (r: Option<&'static str>)
    requires
        100 <= code < 1000,
    ensures
        match (r, status_reason(code)) {
            (Some(s), Some(v)) => s@ == v,
            (None, None) => true,
            _ => false,
        },
{
    http::StatusCode::from_u16(code).ok().and_then(|s| s.canonical_reason())
}

/// The decimal digits of `n`.
pub open spec fn decimal(n: nat) -> Seq<u8>
    decreases n,
{
    if n < 10 {
        seq![(n + 0x30) as u8]
    } else {
        decimal(n / 10).push((n % 10 + 0x30) as u8)
    }
}

/// Writes `n` in decimal digits.
pub fn write_decimal(out: &mut Vec<u8>, n: usize)
    ensures
        final(out)@ == old(out)@ + decimal(n as nat),
    decreases n,
{
    if n < 10 {
        out.push((n as u8) + 0x30);
    } else {
        write_decimal(out, n / 10);
        out.push(((n % 10) as u8) + 0x30);
    }
    assert(final(out)@ =~= old(out)@ + decimal(n as nat));
}

/// The bytes of `content-length`.
pub open spec fn content_length_key() -> Seq<u8> {
    crate::requests::content_length_name()
}

/// The index of the last header named `key`.
pub open spec fn last_index_of(headers: Seq<(Seq<u8>, Seq<u8>)>, key: Seq<u8>) -> Option<int>
    decreases headers.len(),
{
    if headers.len() == 0 {
        None
    } else if headers.last().0 == key {
        Some(headers.len() - 1)
    } else {
        last_index_of(headers.drop_last(), key)
    }
}

/// Where a `HeaderMap` appends a `content-length` header: after the last
/// one, or at the end.
pub open spec fn content_length_slot(headers: Seq<(Seq<u8>, Seq<u8>)>) -> int {
    match last_index_of(headers, content_length_key()) {
        Some(i) => i + 1,
        None => headers.len() as int,
    }
}

/// The headers with `content-length: len` appended as a `HeaderMap`
/// appends it.
pub open spec fn with_content_length(headers: Seq<(Seq<u8>, Seq<u8>)>, len: nat) -> Seq<(Seq<u8>, Seq<u8>)> {
    headers.insert(content_length_slot(headers), (content_length_key(), decimal(len)))
}

/// The header lines: `name: value` and CRLF for each header whose value is
/// valid UTF-8; the others are left out.
pub open spec fn header_lines(headers: Seq<(Seq<u8>, Seq<u8>)>) -> Seq<u8>
    decreases headers.len(),
{
    if headers.len() == 0 {
        Seq::empty()
    } else {
        let (k, v) = headers.last();
        header_lines(headers.drop_last()) + if valid_utf8(v) {
            k + seq![0x3au8, 0x20] + v + seq![0x0du8, 0x0a]
        } else {
            Seq::empty()
        }
    }
}

/// The bytes of an HTTP/1.1 response: the status line with the code and
/// its reason phrase, the header lines with the content length appended,
/// a blank line, and the body.
pub open spec fn response_bytes(
    code: u16,
    reason: Seq<char>,
    headers: Seq<(Seq<u8>, Seq<u8>)>,
    body: Seq<u8>,
) -> Seq<u8> {
    "HTTP/1.1 "@.map_values(|c: char| c as u8) + decimal(code as nat) + seq![0x20u8] + encode_utf8(reason)
        + seq![0x0du8, 0x0a] + header_lines(with_content_length(headers, body.len())) + seq![
        0x0du8,
        0x0a,
    ] + body
}

/// The bytes `content-length: n` and CRLF.
pub open spec fn content_length_line(n: nat) -> Seq<u8> {
    content_length_key() + seq![0x3au8, 0x20] + decimal(n) + seq![0x0du8, 0x0a]
}

/// The bytes `HTTP/1.1`, the code in decimal, a space, the reason phrase
/// and CRLF.
pub open spec fn status_line(code: u16, reason: Seq<char>) -> Seq<u8> {
    "HTTP/1.1 "@.map_values(|c: char| c as u8) + decimal(code as nat) + seq![0x20u8] + encode_utf8(reason)
        + seq![0x0du8, 0x0a]
}

/// A response on the wire starts with the status line, whose code reads
/// back as the code given; it ends with the whole body, just after a blank
/// line, and before that it carries a `content-length` header line whose
/// value reads back as the number of body bytes.
pub proof fn law_response_carries_body(
    code: u16,
    reason: Seq<char>,
    headers: Seq<(Seq<u8>, Seq<u8>)>,
    body: Seq<u8>,
)
    requires
        body.len() <= usize::MAX,
    ensures
        ({
            let r = response_bytes(code, reason, headers, body);
            let h = r.len() - body.len();
            &&& h >= 4
            &&& r.subrange(0, status_line(code, reason).len() as int) == status_line(code, reason)
            &&& crate::requests::parse_usize_spec(decimal(code as nat)) == Some(code as usize)
            &&& r.subrange(h, r.len() as int) == body
            &&& r.subrange(h - 2, h) == seq![0x0du8, 0x0a]
            &&& exists|j: int|
                0 <= j && j + content_length_line(body.len()).len() <= h - 2 && #[trigger] r.subrange(
                    j,
                    j + content_length_line(body.len()).len(),
                ) == content_length_line(body.len())
            &&& crate::requests::parse_usize_spec(decimal(body.len())) == Some(body.len() as usize)
        }),
{
    let n = body.len();
    let hs0 = headers;
    let slot = content_length_slot(hs0);
    lemma_last_index_of(hs0, content_length_key());
    let hs = with_content_length(hs0, n);
    let line_pair = (content_length_key(), decimal(n));
    assert(hs =~= hs0.take(slot) + seq![line_pair] + hs0.skip(slot));
    lemma_header_lines_concat(hs0.take(slot) + seq![line_pair], hs0.skip(slot));
    lemma_header_lines_concat(hs0.take(slot), seq![line_pair]);
    crate::requests::lemma_decimal_digits(n);
    assert forall|i: int| 0 <= i < decimal(n).len() implies #[trigger] decimal(n)[i] < 0x80 by {
        assert(crate::requests::is_digit(decimal(n)[i]));
    }
    crate::extract::host::lemma_ascii_valid_utf8(decimal(n));
    let one = seq![line_pair];
    assert(one.drop_last() =~= Seq::<(Seq<u8>, Seq<u8>)>::empty());
    assert(header_lines(one.drop_last()) =~= Seq::<u8>::empty());
    assert(one.last() == line_pair);
    assert(valid_utf8(line_pair.1));
    assert(header_lines(one) == header_lines(one.drop_last()) + (line_pair.0 + seq![0x3au8, 0x20]
        + line_pair.1 + seq![0x0du8, 0x0a]));
    assert(header_lines(one) =~= content_length_line(n));
    let head = "HTTP/1.1 "@.map_values(|c: char| c as u8) + decimal(code as nat) + seq![0x20u8]
        + encode_utf8(reason) + seq![0x0du8, 0x0a];
    let r = response_bytes(code, reason, headers, body);
    let lines = header_lines(hs);
    assert(r == head + lines + seq![0x0du8, 0x0a] + body);
    let h = r.len() - body.len();
    assert(r.subrange(h, r.len() as int) =~= body);
    assert(r.subrange(h - 2, h) =~= seq![0x0du8, 0x0a]);
    let j: int = (head.len() + header_lines(hs0.take(slot)).len()) as int;
    let l = content_length_line(n);
    assert(lines == header_lines(hs0.take(slot)) + l + header_lines(hs0.skip(slot)));
    assert(r.subrange(j, j + l.len() as int) =~= l);
    crate::requests::law_decimal_round_trip(n as usize);
    assert(head == status_line(code, reason));
    assert(r.subrange(0, head.len() as int) =~= head);
    crate::requests::law_decimal_round_trip(code as usize);
}

/// The headers as byte pairs.
pub open spec fn header_bytes(headers: Seq<(String, Vec<u8>)>) -> Seq<(Seq<u8>, Seq<u8>)> {
    headers.map_values(|h: (String, Vec<u8>)| (encode_utf8(h.0@), h.1@))
}

/// The line of one header: `name: value` and CRLF where the value is valid
/// UTF-8, nothing otherwise.
pub open spec fn header_line(h: (Seq<u8>, Seq<u8>)) -> Seq<u8> {
    if valid_utf8(h.1) {
        h.0 + seq![0x3au8, 0x20] + h.1 + seq![0x0du8, 0x0a]
    } else {
        Seq::empty()
    }
}

proof fn lemma_header_lines_push(hs: Seq<(Seq<u8>, Seq<u8>)>, h: (Seq<u8>, Seq<u8>))
    ensures
        header_lines(hs.push(h)) == header_lines(hs) + header_line(h),
{
    assert(hs.push(h).drop_last() =~= hs);
}

proof fn lemma_last_index_of(hs: Seq<(Seq<u8>, Seq<u8>)>, key: Seq<u8>)
    ensures
        match last_index_of(hs, key) {
            Some(i) => 0 <= i < hs.len() && hs[i].0 == key && forall|k: int|
                i < k < hs.len() ==> hs[k].0 != key,
            None => forall|k: int| 0 <= k < hs.len() ==> hs[k].0 != key,
        },
    decreases hs.len(),
{
    if hs.len() > 0 && hs.last().0 != key {
        lemma_last_index_of(hs.drop_last(), key);
        assert forall|k: int| 0 <= k < hs.len() - 1 implies hs[k].0 == hs.drop_last()[k].0 by {}
    }
}

/// Writes the line of one header.
fn write_header(out: &mut Vec<u8>, name: &[u8], value: &[u8])
    ensures
        final(out)@ == old(out)@ + header_line((name@, value@)),
{
    if crate::text::string_from_utf8(value).is_some() {
        extend(out, name);
        let sep: [u8; 2] = [0x3a, 0x20];
        extend(out, &sep);
        extend(out, value);
        let crlf: [u8; 2] = [0x0d, 0x0a];
        extend(out, &crlf);
        assert(final(out)@ =~= old(out)@ + header_line((name@, value@)));
    } else {
        assert(header_line((name@, value@)) =~= Seq::<u8>::empty());
        assert(final(out)@ =~= old(out)@ + header_line((name@, value@)));
    }
}

/// Where a `HeaderMap` appends a `content-length` header to `headers`.
fn find_content_length_slot(headers: &Vec<(String, Vec<u8>)>) -> (r: usize)
    ensures
        r == content_length_slot(header_bytes(headers@)),
        r <= headers@.len(),
{
    let ghost hs = header_bytes(headers@);
    let key = crate::requests::content_length_bytes();
    assert(key@ == content_length_key());
    let mut slot: usize = headers.len();
    let mut found = false;
    while slot > 0 && !found
        invariant
            slot <= headers@.len(),
            hs == header_bytes(headers@),
            key@ == content_length_key(),
            found ==> slot > 0 && hs[slot - 1].0 == content_length_key(),
            forall|k: int| slot <= k < hs.len() ==> hs[k].0 != content_length_key(),
        decreases slot, if found { 0int } else { 1int },
    {
        let name = crate::text::as_str_bytes(&headers[slot - 1].0).as_bytes();
        assert(hs[slot - 1] == (encode_utf8(headers@[slot - 1].0@), headers@[slot - 1].1@));
        if crate::text::bytes_eq(name, &key) {
            found = true;
        } else {
            slot -= 1;
        }
    }
    proof {
        lemma_last_index_of(hs, content_length_key());
    }
    if found {
        assert(last_index_of(hs, content_length_key()) == Some(slot - 1));
        slot
    } else {
        assert(last_index_of(hs, content_length_key()) is None);
        headers.len()
    }
}

/// Writes the lines of the headers, with the `content-length` line for a
/// body of `len` bytes where a `HeaderMap` appends it.
fn write_headers(out: &mut Vec<u8>, headers: &Vec<(String, Vec<u8>)>, len: usize)
    ensures
        final(out)@ == old(out)@ + header_lines(with_content_length(header_bytes(headers@), len as nat)),
{
    let ghost hs = header_bytes(headers@);
    let ghost start = out@;
    let slot = find_content_length_slot(headers);
    let key = crate::requests::content_length_bytes();
    assert(key@ == content_length_key());
    let mut value: Vec<u8> = Vec::new();
    write_decimal(&mut value, len);
    assert(value@ =~= decimal(len as nat));
    let mut i: usize = 0;
    while i < slot
        invariant
            i <= slot <= headers@.len(),
            hs == header_bytes(headers@),
            out@ == start + header_lines(hs.subrange(0, i as int)),
        decreases slot - i,
    {
        let name = crate::text::as_str_bytes(&headers[i].0).as_bytes();
        assert(hs[i as int] == (encode_utf8(headers@[i as int].0@), headers@[i as int].1@));
        write_header(out, name, headers[i].1.as_slice());
        proof {
            assert(hs.subrange(0, i + 1) =~= hs.subrange(0, i as int).push(hs[i as int]));
            lemma_header_lines_push(hs.subrange(0, i as int), hs[i as int]);
        }
        i += 1;
    }
    write_header(out, &key, value.as_slice());
    let ghost middle = out@;
    while i < headers.len()
        invariant
            slot <= i <= headers@.len(),
            hs == header_bytes(headers@),
            middle == start + header_lines(hs.subrange(0, slot as int)) + header_line(
                (content_length_key(), decimal(len as nat)),
            ),
            out@ == middle + header_lines(hs.subrange(slot as int, i as int)),
        decreases headers@.len() - i,
    {
        let name = crate::text::as_str_bytes(&headers[i].0).as_bytes();
        assert(hs[i as int] == (encode_utf8(headers@[i as int].0@), headers@[i as int].1@));
        write_header(out, name, headers[i].1.as_slice());
        proof {
            assert(hs.subrange(slot as int, i + 1) =~= hs.subrange(slot as int, i as int).push(hs[i as int]));
            lemma_header_lines_push(hs.subrange(slot as int, i as int), hs[i as int]);
        }
        i += 1;
    }
    proof {
        let cl = (content_length_key(), decimal(len as nat));
        let left = hs.subrange(0, slot as int).push(cl);
        let right = hs.subrange(slot as int, hs.len() as int);
        assert(with_content_length(hs, len as nat) =~= left + right);
        lemma_header_lines_push(hs.subrange(0, slot as int), cl);
        lemma_header_lines_concat(left, right);
        assert(out@ =~= start + header_lines(with_content_length(hs, len as nat)));
    }
}

/// The bytes of an HTTP/1.1 response with status `code`, the `headers` by
/// name and value in the order a `HeaderMap` gives them, and the `body`: the
/// status line, the header lines with `content-length` appended, a blank
/// line, and the body.
pub fn response_to_vec(code: u16, headers: &Vec<(String, Vec<u8>)>, body: &[u8]) -> (r: Vec<u8>)
    requires
        100 <= code < 1000,
        status_reason(code) is Some,
    ensures
        r@ == response_bytes(code, status_reason(code)->0, header_bytes(headers@), body@),
{
    let reason = match canonical_reason(code) {
        Some(r) => r,
        None => vstd::pervasive::unreached(),
    };
    let mut out: Vec<u8> = Vec::new();
    let version: [u8; 9] = [0x48, 0x54, 0x54, 0x50, 0x2f, 0x31, 0x2e, 0x31, 0x20];
    proof {
        reveal_strlit("HTTP/1.1 ");
    }
    assert(version@ =~= "HTTP/1.1 "@.map_values(|c: char| c as u8));
    extend(&mut out, &version);
    write_decimal(&mut out, code as usize);
    out.push(0x20);
    proof {
        crate::text::lemma_str_view(reason);
    }
    extend(&mut out, reason.as_bytes());
    let crlf: [u8; 2] = [0x0d, 0x0a];
    extend(&mut out, &crlf);
    write_headers(&mut out, headers, body.len());
    extend(&mut out, &crlf);
    extend(&mut out, body);
    assert(out@ =~= response_bytes(code, status_reason(code)->0, header_bytes(headers@), body@));
    out
}

/// The headers of a plain-text response: `content-type: text/plain;
/// charset=utf-8`.
pub open spec fn text_headers() -> Seq<(Seq<u8>, Seq<u8>)> {
    seq![
        (encode_utf8("content-type"@), encode_utf8("text/plain; charset=utf-8"@)),
    ]
}

/// The bytes of the plain-text response with status `code` and `body`, as
/// a status and a string make it; `None` where `http` knows no reason phrase
/// for the code.
pub fn text_response(code: u16, body: &str) -> (r: Option<Vec<u8>>)
    ensures
        match r {
            Some(v) => 100 <= code < 1000 && status_reason(code) is Some && v@ == response_bytes(
                code,
                status_reason(code)->0,
                text_headers(),
                body.spec_bytes(),
            ),
            None => !(100 <= code < 1000) || status_reason(code) is None,
        },
{
    if code < 100 || code >= 1000 {
        return None;
    }
    if canonical_reason(code).is_none() {
        return None;
    }
    let name = "content-type";
    let value = "text/plain; charset=utf-8";
    proof {
        crate::text::lemma_str_view(name);
        crate::text::lemma_str_view(value);
    }
    let mut headers: Vec<(String, Vec<u8>)> = Vec::new();
    headers.push((name.to_owned(), vstd::slice::slice_to_vec(value.as_bytes())));
    assert(header_bytes(headers@) =~= text_headers());
    Some(response_to_vec(code, &headers, body.as_bytes()))
}

/// A message from a worker to the supervisor of its connection.
pub enum WorkerMessage {
    /// The bytes of the response, and the bytes of the requests pipelined
    /// after it.
    Response(Vec<u8>, Vec<u8>),
    /// The worker could not handle the request.
    Failure(String),
    /// The worker took longer than the request timeout.
    TimedOut,
    /// The worker panicked.
    LinkDied,
}

/// What the supervisor does on a message from its worker.
pub enum SupervisorAction {
    /// Write `data` to the connection, then serve `next` with a new worker
    /// (unless the write fails).
    Respond { data: Vec<u8>, next: Vec<u8> },
    /// Kill the worker where `kill_worker` is set, write the error
    /// `response`, and close the connection.
    Close { response: Option<Vec<u8>>, kill_worker: bool },
}

/// The error response with `code` and `body`.
pub open spec fn error_response(r: Option<Vec<u8>>, code: u16, body: Seq<char>) -> bool {
    match r {
        Some(v) => status_reason(code) is Some && v@ == response_bytes(
            code,
            status_reason(code)->0,
            text_headers(),
            encode_utf8(body),
        ),
        None => status_reason(code) is None,
    }
}

/// The supervisor's decision on a message from its worker: a response is
/// written and the connection kept alive with the pipelined bytes; a
/// failure or a panicked worker gets a 500 response, a timed-out worker is
/// killed and gets a 408 response, and the connection closes.
pub fn supervise(msg: WorkerMessage) -> (r: SupervisorAction)
    ensures
        match msg {
            WorkerMessage::Response(data, next) => r == (SupervisorAction::Respond { data, next }),
            WorkerMessage::TimedOut => r matches SupervisorAction::Close { response, kill_worker }
                && kill_worker && error_response(response, 408, "Request timed out"@),
            _ => r matches SupervisorAction::Close { response, kill_worker } && !kill_worker
                && error_response(response, 500, "Internal Server Error"@),
        },
{
    match msg {
        WorkerMessage::Response(data, next) => SupervisorAction::Respond { data, next },
        WorkerMessage::TimedOut => {
            let body = "Request timed out";
            proof {
                crate::text::lemma_str_view(body);
            }
            SupervisorAction::Close { response: text_response(408, body), kill_worker: true }
        },
        _ => {
            let body = "Internal Server Error";
            proof {
                crate::text::lemma_str_view(body);
            }
            SupervisorAction::Close { response: text_response(500, body), kill_worker: false }
        },
    }
}

/// The lines of two runs of headers are the lines of each.
proof fn lemma_header_lines_concat(a: Seq<(Seq<u8>, Seq<u8>)>, b: Seq<(Seq<u8>, Seq<u8>)>)
    ensures
        header_lines(a + b) == header_lines(a) + header_lines(b),
    decreases b.len(),
{
    if b.len() == 0 {
        assert(a + b =~= a);
        assert(header_lines(a) + header_lines(b) =~= header_lines(a));
    } else {
        lemma_header_lines_concat(a, b.drop_last());
        assert((a + b).drop_last() =~= a + b.drop_last());
        assert(header_lines(a + b) =~= header_lines(a) + header_lines(b));
    }
}


} // verus!
