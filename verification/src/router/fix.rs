//! Case-insensitive lookup of a path, for redirecting to the route that a
//! path names with other letter case or with a trailing slash added or
//! removed.
use vstd::prelude::*;
use vstd::utf8::*;

use vstd::string::StringSliceAdditionalSpecFns;

use crate::router::tree::{char_start, shift_n_bytes, spec_shift_n_bytes, ConstNode, NodeType};
use crate::text::{extend, string_from_utf8};

verus! {

/// The outcome of a case-insensitive lookup: whether a route was found,
/// and the path built so far; or that the lookup panics.
pub ghost enum Fix {
    Done(bool, Seq<u8>),
    Panics,
}

/// ASCII lowercase of a byte.
pub open spec fn lower_byte(b: u8) -> u8 {
    if 0x41 <= b <= 0x5a {
        (b + 32) as u8
    } else {
        b
    }
}

/// ASCII lowercase of bytes.
pub open spec fn lower_seq(s: Seq<u8>) -> Seq<u8> {
    s.map_values(|b: u8| lower_byte(b))
}

/// The byte sequences are equal up to ASCII case.
pub open spec fn eq_ignore_case(a: Seq<u8>, b: Seq<u8>) -> bool {
    a.len() == b.len() && forall|k: int| 0 <= k < a.len() ==> lower_byte(a[k]) == lower_byte(b[k])
}

/// Whether the byte could be the first byte of a `char`.
pub open spec fn is_char_start(b: u8) -> bool {
    !(0x80 <= b <= 0xbf)
}

/// The offset `j`, below `min(plen, 3)`, of the first char start going back
/// from `plen` in `lower`.
pub open spec fn char_offset(lower: Seq<u8>, plen: int, j: int) -> Option<int>
    decreases 3 - j,
{
    if j < 0 || j >= 3 || j >= plen {
        None
    } else if is_char_start(lower[plen - j]) {
        Some(j)
    } else {
        char_offset(lower, plen, j + 1)
    }
}

/// `enc` written over the start of `buf`.
pub open spec fn write_bytes(buf: Seq<u8>, enc: Seq<u8>) -> Seq<u8> {
    enc + buf.subrange(enc.len() as int, 4)
}

/// `buf` shifted left by `n` bytes.
pub open spec fn shift(buf: Seq<u8>, n: int) -> Seq<u8> {
    spec_shift_n_bytes([buf[0], buf[1], buf[2], buf[3]], n as usize)
}

/// The bytes of the char at `i` in `lower`, if `lower` is valid UTF-8 from
/// there on.
pub open spec fn char_at(lower: Seq<u8>, i: int) -> Option<Seq<u8>> {
    let tail = lower.subrange(i, lower.len() as int);
    if valid_utf8(tail) && tail.len() > 0 {
        Some(take_first_scalar(tail))
    } else {
        None
    }
}

/// The bytes of the char that the byte after `plen` bytes of `lower`
/// ends or begins, and how many bytes of it come before that byte; a zero
/// byte where no char starts in reach. `None` for the bytes where `lower`
/// is not valid UTF-8 from that char on.
pub open spec fn char_pick(lower: Seq<u8>, plen: int) -> (Option<Seq<u8>>, int) {
    match char_offset(lower, plen, 0) {
        Some(j) => (char_at(lower, plen - j), j),
        None => (Some(seq![0u8]), 0),
    }
}

/// The index of the first child whose index byte is `c`.
pub open spec fn child_for<'a, T>(n: ConstNode<'a, T>, c: u8) -> Option<int> {
    crate::text::find_byte_from(n.indices@, c, 0)
}

/// A child found by its index byte is at a position that holds the byte,
/// and no earlier position does.
pub proof fn lemma_child_for<'a, T>(n: ConstNode<'a, T>, c: u8)
    ensures
        match child_for(n, c) {
            Some(i) => 0 <= i < n.indices@.len() && n.indices@[i] == c && forall|k: int|
                0 <= k < i ==> n.indices@[k] != c,
            None => forall|k: int| 0 <= k < n.indices@.len() ==> n.indices@[k] != c,
        },
{
    crate::text::lemma_find_byte_from(n.indices@, c, 0);
}

/// The path built by `fix_path_helper` below `n`, which has the rest `path`
/// to match, the path `ins` built so far, and the bytes `buf` of a char
/// that a parent node began; `pv` tells whether the node that handed the
/// rest over holds values, so that `ins` alone names a route.
pub open spec fn fix_helper<'a, T>(n: ConstNode<'a, T>, path: Seq<u8>, ins: Seq<u8>, buf: Seq<u8>, pv: bool) -> Fix
    decreases n, 1int,
{
    let lower = lower_seq(path);
    let plen = n.prefix@.len() as int;
    if lower.len() >= plen && (plen == 0 || eq_ignore_case(
        lower.subrange(1, plen),
        n.prefix@.subrange(1, plen),
    )) {
        let ins1 = ins + n.prefix@;
        let rest = path.subrange(plen, path.len() as int);
        if rest.len() > 0 {
            if !n.wild_child {
                fix_static(n, path, rest, ins1, buf)
            } else if n.children@.len() == 0 {
                Fix::Panics
            } else {
                proof {
                    assert(decreases_to!(n => n.children@[0]));
                }
                fix_match(n.children@[0], rest, ins1, buf)
            }
        } else if n.value@.len() > 0 {
            Fix::Done(true, ins1)
        } else {
            match child_for(n, 0x2f) {
                None => Fix::Done(false, ins1),
                Some(i) => if i >= n.children@.len() {
                    Fix::Panics
                } else {
                    let c = n.children@[i];
                    if c.prefix@.len() == 1 && c.value@.len() > 0 {
                        Fix::Done(true, ins1.push(0x2f))
                    } else if c.node_type == NodeType::CatchAll {
                        if c.children@.len() == 0 {
                            Fix::Panics
                        } else if c.children@[0].value@.len() > 0 {
                            Fix::Done(true, ins1.push(0x2f))
                        } else {
                            Fix::Done(false, ins1)
                        }
                    } else {
                        Fix::Done(false, ins1)
                    }
                },
            }
        }
    } else if path == seq![0x2fu8] && pv {
        Fix::Done(true, ins)
    } else if lower.len() + 1 == plen && n.prefix@[lower.len() as int] == 0x2f {
        if lower.len() == 0 {
            Fix::Panics
        } else if eq_ignore_case(
            lower.subrange(1, lower.len() as int),
            n.prefix@.subrange(1, lower.len() as int),
        ) && n.value@.len() > 0 {
            Fix::Done(true, ins + n.prefix@)
        } else {
            Fix::Done(false, ins)
        }
    } else {
        Fix::Done(false, ins)
    }
}

/// The lookup below a node without a wildcard child, whose prefix matched
/// with `rest` left: the char that the next byte belongs to picks the child,
/// first in lower case, then in upper case.
pub open spec fn fix_static<'a, T>(
    n: ConstNode<'a, T>,
    path: Seq<u8>,
    rest: Seq<u8>,
    ins1: Seq<u8>,
    buf: Seq<u8>,
) -> Fix
    decreases n, 0int,
{
    let lower = lower_seq(path);
    let plen = n.prefix@.len() as int;
    let tail = Fix::Done(rest == seq![0x2fu8] && n.value@.len() > 0, ins1);
    let buf1 = shift(buf, plen);
    if buf1[0] == 0 {
        let (cur, off) = char_pick(lower, plen);
        match cur {
            None => Fix::Panics,
            Some(enc) => {
                let buf2 = shift(write_bytes(buf1, enc), off);
                let lowered = match child_for(n, buf2[0]) {
                    None => Fix::Done(false, ins1),
                    Some(i) => if i >= n.children@.len() {
                        Fix::Panics
                    } else {
                        proof {
                            lemma_child_for(n, buf2[0]);
                            assert(decreases_to!(n => n.children@[i]));
                        }
                        let c = n.children@[i];
                        match fix_helper(c, rest, ins1, buf2, n.value@.len() > 0) {
                            Fix::Panics => Fix::Panics,
                            Fix::Done(true, ins2) => Fix::Done(true, ins2),
                            Fix::Done(false, ins2) => Fix::Done(
                                false,
                                if ins2.len() > c.prefix@.len() {
                                    ins2.subrange(0, ins2.len() - c.prefix@.len())
                                } else {
                                    ins2
                                },
                            ),
                        }
                    },
                };
                match lowered {
                    Fix::Done(false, ins3) => {
                        if enc.len() == 1 && 0x61 <= enc[0] <= 0x7a {
                            let buf3 = shift(write_bytes(buf2, seq![(enc[0] - 32) as u8]), off);
                            match child_for(n, buf3[0]) {
                                None => Fix::Done(rest == seq![0x2fu8] && n.value@.len() > 0, ins3),
                                Some(i) => if i >= n.children@.len() {
                                    Fix::Panics
                                } else {
                                    proof {
                                        lemma_child_for(n, buf3[0]);
                                        assert(decreases_to!(n => n.children@[i]));
                                    }
                                    fix_helper(n.children@[i], rest, ins3, buf3, n.value@.len() > 0)
                                },
                            }
                        } else {
                            Fix::Done(rest == seq![0x2fu8] && n.value@.len() > 0, ins3)
                        }
                    },
                    other => other,
                }
            },
        }
    } else {
        match child_for(n, buf1[0]) {
            None => tail,
            Some(i) => if i >= n.children@.len() {
                Fix::Panics
            } else {
                proof {
                    lemma_child_for(n, buf1[0]);
                    assert(decreases_to!(n => n.children@[i]));
                }
                fix_helper(n.children@[i], rest, ins1, buf1, n.value@.len() > 0)
            },
        }
    }
}

/// The lookup at a wildcard node with the rest `path` to match.
pub open spec fn fix_match<'a, T>(n: ConstNode<'a, T>, path: Seq<u8>, ins: Seq<u8>, buf: Seq<u8>) -> Fix
    decreases n, 0int,
{
    match n.node_type {
        NodeType::Param => {
            let end = match crate::text::find_byte(path, 0x2fu8) {
                Some(e) => e,
                None => path.len() as int,
            };
            let ins1 = ins + path.subrange(0, end);
            if end < path.len() {
                if n.children@.len() > 0 {
                    proof {
                        assert(decreases_to!(n => n.children@[0]));
                    }
                    fix_helper(n.children@[0], path.subrange(end, path.len() as int), ins1, buf, n.value@.len() > 0)
                } else {
                    Fix::Done(path.len() == end + 1, ins1)
                }
            } else if n.value@.len() > 0 {
                Fix::Done(true, ins1)
            } else if n.children@.len() == 1 && n.children@[0].prefix@ == seq![0x2fu8]
                && n.children@[0].value@.len() > 0 {
                Fix::Done(true, ins1.push(0x2f))
            } else {
                Fix::Done(false, ins1)
            }
        },
        NodeType::CatchAll => Fix::Done(true, ins + path),
        _ => Fix::Panics,
    }
}

/// What `fix_path` returns for `path`: the path of the route that matches
/// it up to letter case and a trailing slash, if any; `None` as the outcome
/// for a panic.
pub open spec fn spec_fix_path<'a, T>(root: ConstNode<'a, T>, path: Seq<u8>) -> Option<Option<Seq<char>>> {
    match fix_helper(root, path, Seq::empty(), seq![0u8, 0u8, 0u8, 0u8], false) {
        Fix::Panics => None,
        Fix::Done(false, _) => Some(None),
        Fix::Done(true, ins) => if valid_utf8(ins) {
            Some(Some(decode_utf8(ins)))
        } else {
            None
        },
    }
}

/// Below a node without index bytes the static lookup keeps the path built
/// so far: it finds the node's own route or nothing.
proof fn lemma_fix_static_no_indices<'a, T>(
    n: ConstNode<'a, T>,
    path: Seq<u8>,
    rest: Seq<u8>,
    ins1: Seq<u8>,
    buf: Seq<u8>,
)
    requires
        n.indices@.len() == 0,
    ensures
        fix_static(n, path, rest, ins1, buf) is Panics || (fix_static(n, path, rest, ins1, buf)
            matches Fix::Done(_, i) && i == ins1),
{
    assert(forall|c: u8| #[trigger] child_for(n, c) is None);
}

/// For the tree of a single route without wildcards, inserted into an empty
/// tree, a case-insensitive lookup that succeeds gives that route, which
/// matching then finds.
pub proof fn law_fix_path_single_route<'a, T>(
    n: crate::router::tree::Node<T>,
    c: ConstNode<'a, T>,
    route: Seq<u8>,
    val: T,
    path: Seq<u8>,
)
    requires
        forall|k: int| 0 <= k < route.len() ==> !crate::router::tree::is_wild(#[trigger] route[k]),
        crate::router::insert::shape(n) == crate::router::insert::spec_insert(
            crate::router::insert::empty_shape(),
            route,
        ).0,
        crate::router::insert::holds_last(n, val),
        crate::router::lookup::mirrors(c, n),
    ensures
        spec_fix_path(c, path) matches Some(Some(q)) ==> encode_utf8(q) == route
            && crate::router::lookup::spec_at(c, route) == crate::router::lookup::Lookup::Found(
            seq![val],
            Seq::<(Seq<char>, Seq<char>)>::empty(),
        ),
{
    crate::router::lookup::law_insert_then_at(n, c, route, val);
    crate::router::tree::lemma_find_wildcard(route);
    let s = crate::router::insert::shape(n);
    assert(s.prefix == route && s.values == 1 && s.children.len() == 0 && s.indices.len() == 0);
    assert(c.prefix@ == route && c.value@.len() == 1 && c.indices@.len() == 0 && !c.wild_child);
    let buf0 = seq![0u8, 0u8, 0u8, 0u8];
    let plen = route.len() as int;
    if path.len() >= plen {
        lemma_fix_static_no_indices(c, path, path.subrange(plen, path.len() as int), route, buf0);
    }
    assert(Seq::<u8>::empty() + route =~= route);
    if let Some(Some(q)) = spec_fix_path(c, path) {
        let r = fix_helper(c, path, Seq::empty(), buf0, false);
        assert(r matches Fix::Done(true, ins) && ins == route);
        decode_utf8_encode_utf8(route);
    }
}

/// For the tree of a single route that ends with a param, inserted into an
/// empty tree, a case-insensitive lookup that succeeds keeps the route's
/// static part and copies the param's value from the path as written: the
/// fixed path is the static part, then the bytes of the path that follow it,
/// which hold no `/`; at most a trailing `/` of the path is left off.
/// Matching the fixed path then finds the route, with those bytes as the
/// param's value.
pub proof fn law_fix_path_keeps_param_value<'a, T>(
    n: crate::router::tree::Node<T>,
    c: ConstNode<'a, T>,
    fixed: Seq<u8>,
    name: Seq<u8>,
    path: Seq<u8>,
)
    requires
        fixed.len() > 0,
        forall|k: int| 0 <= k < fixed.len() ==> !crate::router::tree::is_wild(#[trigger] fixed[k]),
        name.len() > 0,
        forall|k: int|
            0 <= k < name.len() ==> !crate::router::tree::is_wild(#[trigger] name[k]) && name[k]
                != 0x2f,
        crate::router::insert::shape(n) == crate::router::insert::spec_insert(
            crate::router::insert::empty_shape(),
            fixed + seq![0x3au8] + name,
        ).0,
        crate::router::lookup::mirrors(c, n),
    ensures
        spec_fix_path(c, path) matches Some(Some(qs)) ==> {
            let q = encode_utf8(qs);
            &&& fixed.len() <= q.len() <= path.len()
            &&& q.subrange(0, fixed.len() as int) == fixed
            &&& q.subrange(fixed.len() as int, q.len() as int) == path.subrange(
                fixed.len() as int,
                q.len() as int,
            )
            &&& forall|k: int| fixed.len() <= k < q.len() ==> #[trigger] q[k] != 0x2fu8
            &&& (path.len() > q.len() ==> path.len() == q.len() + 1 && path.last() == 0x2fu8)
            &&& (q.len() > fixed.len() && valid_utf8(name) && valid_utf8(
                q.subrange(fixed.len() as int, q.len() as int),
            ) ==> crate::router::lookup::spec_at(c, q) == crate::router::lookup::Lookup::Found(
                c.children@[0].value@,
                seq![(decode_utf8(name), decode_utf8(q.subrange(fixed.len() as int, q.len() as int)))],
            ))
        },
{
    let route = fixed + seq![0x3au8] + name;
    let wi = fixed.len() as int;
    let wildcard = route.subrange(wi, route.len() as int);
    crate::router::tree::lemma_find_wildcard(route);
    assert(route[wi] == 0x3a);
    match crate::router::tree::spec_find_wildcard(route).0 {
        Some((w, i)) => {
            if i < wi {
                assert(route[i] == fixed[i]);
            }
            if i > wi {
                assert(crate::router::tree::is_wild(route[wi]));
            }
            assert(i == wi);
            if i + w.len() < route.len() {
                assert(route[i + w.len()] == name[i + w.len() - wi - 1]);
            }
            assert(w =~= wildcard);
        },
        None => {
            assert(crate::router::tree::is_wild(route[wi]));
        },
    }
    assert(crate::router::tree::spec_find_wildcard(route).1) by {
        assert(crate::router::tree::first_wild_from(route, 0) is Some);
        let start = crate::router::tree::first_wild_from(route, 0)->0;
        assert(start == wi);
        let end = crate::router::tree::segment_end_after(route, start);
        crate::text::lemma_find_byte_from(route, 0x2fu8, start + 1);
        assert(end <= route.len());
        assert forall|k: int| start < k < end implies !crate::router::tree::is_wild(#[trigger] route[k]) by {
            assert(route[k] == name[k - wi - 1]);
        }
    }
    assert(route.subrange(0, wi) =~= fixed);
    let s = crate::router::insert::shape(n);
    assert(s.prefix == fixed);
    assert(s.wild_child && s.children.len() == 1 && s.indices.len() == 0 && s.values == 0);
    assert(s.children[0].prefix == wildcard && s.children[0].node_type == NodeType::Param);
    assert(s.children[0].values == 1 && s.children[0].children.len() == 0);
    assert(s.children[0] == crate::router::insert::shape(n.children@[0]));
    let pc = c.children@[0];
    assert(crate::router::lookup::mirrors(pc, n.children@[0]));
    assert(c.prefix@ == fixed && c.wild_child && c.children@.len() == 1 && c.value@.len() == 0
        && c.indices@.len() == 0);
    assert(pc.node_type == NodeType::Param && pc.value@.len() == 1 && pc.children@.len() == 0);
    let buf0 = seq![0u8, 0u8, 0u8, 0u8];
    assert(Seq::<u8>::empty() + fixed =~= fixed);
    if let Some(Some(qs)) = spec_fix_path(c, path) {
        let r = fix_helper(c, path, Seq::empty(), buf0, false);
        let plen = fixed.len() as int;
        assert(r matches Fix::Done(true, _));
        let rest = path.subrange(plen, path.len() as int);
        crate::text::lemma_find_byte_from(rest, 0x2fu8, 0);
        let end = match crate::text::find_byte(rest, 0x2fu8) {
            Some(e) => e,
            None => rest.len() as int,
        };
        assert(r == Fix::Done(true, fixed + rest.subrange(0, end)));
        let q = fixed + rest.subrange(0, end);
        decode_utf8_encode_utf8(q);
        assert(encode_utf8(qs) == q);
        assert(q.subrange(0, plen) =~= fixed);
        assert(q.subrange(plen, q.len() as int) =~= path.subrange(plen, q.len() as int));
        let v = q.subrange(plen, q.len() as int);
        if q.len() > plen && valid_utf8(name) && valid_utf8(v) {
            assert(crate::router::lookup::wild_name(pc) =~= name);
            assert(c.prefix@ + v =~= q);
            assert forall|k: int| 0 <= k < v.len() implies #[trigger] v[k] != 0x2fu8 by {
                assert(v[k] == rest[k]);
            }
            crate::router::routes::law_param_route_found(c, v);
        }
        if path.len() > q.len() {
            assert(end + 1 == rest.len());
            assert(path.last() == rest[end]);
        }
    }
}

/// ASCII lowercase of `b`.
fn to_ascii_lowercase(b: &[u8]) -> (r: Vec<u8>)
    ensures
        r@ == lower_seq(b@),
{
    let mut out: Vec<u8> = Vec::new();
    let mut i: usize = 0;
    while i < b.len()
        invariant
            i <= b@.len(),
            out@ == lower_seq(b@.subrange(0, i as int)),
        decreases b@.len() - i,
    {
        let c = b[i];
        let l = if 0x41 <= c && c <= 0x5a {
            c + 32
        } else {
            c
        };
        out.push(l);
        i += 1;
        assert(lower_seq(b@.subrange(0, i as int)) =~= lower_seq(b@.subrange(0, i - 1)).push(l));
    }
    assert(b@.subrange(0, b@.len() as int) =~= b@);
    out
}

/// `a` and `b` are equal up to ASCII case.
pub(crate) fn eq_ignore_ascii_case(a: &[u8], b: &[u8]) -> (r: bool)
    ensures
        r == eq_ignore_case(a@, b@),
{
    if a.len() != b.len() {
        return false;
    }
    let mut i: usize = 0;
    while i < a.len()
        invariant
            a@.len() == b@.len(),
            i <= a@.len(),
            forall|k: int| 0 <= k < i ==> lower_byte(a@[k]) == lower_byte(b@[k]),
        decreases a@.len() - i,
    {
        let x = a[i];
        let y = b[i];
        let lx = if 0x41 <= x && x <= 0x5a {
            x + 32
        } else {
            x
        };
        let ly = if 0x41 <= y && y <= 0x5a {
            y + 32
        } else {
            y
        };
        if lx != ly {
            return false;
        }
        i += 1;
    }
    true
}

/// The index of the first `c` in `s`.
fn position(s: &[u8], c: u8) -> (r: Option<usize>)
    ensures
        match r {
            Some(i) => crate::text::find_byte_from(s@, c, 0) == Some(i as int),
            None => crate::text::find_byte_from(s@, c, 0) is None,
        },
{
    proof {
        crate::text::lemma_find_byte_from(s@, c, 0);
    }
    let mut i: usize = 0;
    while i < s.len()
        invariant
            i <= s@.len(),
            forall|k: int| 0 <= k < i ==> s@[k] != c,
            match crate::text::find_byte_from(s@, c, 0) {
                Some(j) => 0 <= j < s@.len() && s@[j] == c && forall|k: int|
                    0 <= k < j ==> s@[k] != c,
                None => forall|k: int| 0 <= k < s@.len() ==> s@[k] != c,
            },
        decreases s@.len() - i,
    {
        if s[i] == c {
            return Some(i);
        }
        i += 1;
    }
    None
}

/// The bytes of the char that the byte at `plen` ends or begins, and how
/// many of its bytes come before it.
fn pick_char(lower: &[u8], plen: usize) -> (r: (Vec<u8>, usize))
    requires
        plen < lower@.len(),
        char_pick(lower@, plen as int).0 is Some,
    ensures
        char_pick(lower@, plen as int) == (Some(r.0@), r.1 as int),
        r.0@.len() <= 4,
        r.1 < 3,
{
    let mut off: usize = 0;
    let mut found = false;
    let mut j: usize = 0;
    while !found && j < 3 && j < plen
        invariant
            j <= 3,
            j <= plen,
            plen < lower@.len(),
            found ==> char_offset(lower@, plen as int, 0) == Some(off as int) && off < 3 && off <= plen,
            !found ==> char_offset(lower@, plen as int, 0) == char_offset(lower@, plen as int, j as int) && off == 0,
        decreases 3 - j, if found { 0int } else { 1int },
    {
        if char_start(lower[plen - j]) {
            found = true;
            off = j;
        } else {
            j += 1;
        }
    }
    let mut enc: Vec<u8> = Vec::new();
    if found {
        assert(char_offset(lower@, plen as int, 0) == Some(off as int));
        let i = plen - off;
        let ghost tail = lower@.subrange(i as int, lower@.len() as int);
        assert(valid_utf8(tail) && tail.len() > 0);
        assert(valid_first_scalar(tail));
        let b0 = lower[i];
        assert(b0 == tail[0]);
        let len: usize = if b0 <= 0x7f {
            1
        } else if b0 <= 0xdf {
            2
        } else if b0 <= 0xef {
            3
        } else {
            4
        };
        assert(len == length_of_first_scalar(tail));
        enc = vstd::slice::slice_to_vec(vstd::slice::slice_subrange(lower, i, i + len));
        assert(enc@ =~= take_first_scalar(tail));
        assert(char_pick(lower@, plen as int) == (Some(enc@), off as int));
    } else {
        assert(char_offset(lower@, plen as int, 0) is None);
        enc.push(0u8);
        assert(enc@ =~= seq![0u8]);
        assert(char_pick(lower@, plen as int) == (Some(enc@), off as int));
    }
    (enc, off)
}

/// `enc` written over the start of `buf`.
fn write_char(buf: [u8; 4], enc: &[u8]) -> (r: [u8; 4])
    requires
        enc@.len() <= 4,
    ensures
        r@ == write_bytes(buf@, enc@),
{
    let mut r = buf;
    let mut k: usize = 0;
    while k < enc.len()
        invariant
            enc@.len() <= 4,
            k <= enc@.len(),
            forall|j: int| 0 <= j < k ==> r@[j] == enc@[j],
            forall|j: int| k <= j < 4 ==> r@[j] == buf@[j],
        decreases enc@.len() - k,
    {
        r[k] = enc[k];
        k += 1;
    }
    assert(r@ =~= write_bytes(buf@, enc@));
    r
}

/// `buf` shifted left by `n` bytes.
fn shift_buf(buf: [u8; 4], n: usize) -> (r: [u8; 4])
    ensures
        r@ == shift(buf@, n as int),
{
    assert([buf@[0], buf@[1], buf@[2], buf@[3]]@ =~= buf@);
    shift_n_bytes(buf, n)
}

impl<'a, T> ConstNode<'a, T> {
    /// Makes a case-insensitive lookup of `path`: the path of the route that
    /// `path` names with other letter case, or with a trailing slash added or
    /// removed; `None` where there is none.
    pub fn fix_path(&self, path: &str) -> (r: Option<String>)
        requires
            spec_fix_path(*self, path.spec_bytes()) is Some,
        ensures
            match r {
                Some(s) => spec_fix_path(*self, path.spec_bytes()) == Some(Some(s@)),
                None => spec_fix_path(*self, path.spec_bytes()) == Some(None::<Seq<char>>),
            },
    {
        let mut insensitive_path: Vec<u8> = Vec::new();
        let found = self.fix_path_helper(path.as_bytes(), &mut insensitive_path, [0u8, 0u8, 0u8, 0u8], false);
        proof {
            assert([0u8, 0u8, 0u8, 0u8]@ =~= seq![0u8, 0u8, 0u8, 0u8]);
        }
        if found {
            match string_from_utf8(insensitive_path.as_slice()) {
                Some(s) => Some(s),
                None => vstd::pervasive::unreached(),
            }
        } else {
            None
        }
    }

    /// The lookup below this node, with the rest `path` to match, the path
    /// built so far in `insensitive_path`, and the bytes `buf` of a char that
    /// a parent node began; `pv` tells whether the node that handed the rest
    /// over holds values.
    fn fix_path_helper(&self, path: &[u8], insensitive_path: &mut Vec<u8>, buf: [u8; 4], pv: bool) -> (r: bool)
        requires
            !(fix_helper(*self, path@, old(insensitive_path)@, buf@, pv) is Panics),
        ensures
            fix_helper(*self, path@, old(insensitive_path)@, buf@, pv) == Fix::Done(r, final(insensitive_path)@),
        decreases *self, 1int,
    {
        let lower_path = to_ascii_lowercase(path);
        let plen = self.prefix.len();
        if lower_path.len() >= plen && (plen == 0 || eq_ignore_ascii_case(
            vstd::slice::slice_subrange(lower_path.as_slice(), 1, plen),
            vstd::slice::slice_subrange(self.prefix, 1, plen),
        )) {
            extend(insensitive_path, self.prefix);
            let rest = vstd::slice::slice_subrange(path, plen, path.len());
            if rest.len() > 0 {
                if !self.wild_child {
                    assert(rest@ == path@.subrange(plen as int, path@.len() as int));
                    return self.fix_path_static(path, rest, insensitive_path, buf);
                }
                return self.children[0].fix_path_match_helper(rest, insensitive_path, buf);
            }
            if self.value.len() > 0 {
                return true;
            }
            proof {
                lemma_child_for(*self, 0x2f);
            }
            match position(self.indices, 0x2f) {
                None => false,
                Some(i) => {
                    let c = &self.children[i];
                    if c.prefix.len() == 1 && c.value.len() > 0 {
                        insensitive_path.push(0x2f);
                        true
                    } else if c.node_type == NodeType::CatchAll && c.children[0].value.len() > 0 {
                        insensitive_path.push(0x2f);
                        true
                    } else {
                        false
                    }
                },
            }
        } else {
            if path.len() == 1 && path[0] == 0x2f {
                assert(path@ =~= seq![0x2fu8]);
                if pv {
                    return true;
                }
            } else {
                assert(path@ != seq![0x2fu8]);
            }
            let ll = lower_path.len();
            if plen > 0 && ll == plen - 1 && self.prefix[ll] == 0x2f && eq_ignore_ascii_case(
                vstd::slice::slice_subrange(lower_path.as_slice(), 1, ll),
                vstd::slice::slice_subrange(self.prefix, 1, ll),
            ) && self.value.len() > 0 {
                extend(insensitive_path, self.prefix);
                return true;
            }
            false
        }
    }

    /// The lookup below this node, which has no wildcard child and whose
    /// prefix matched with `rest` left: the char that the next byte belongs
    /// to picks the child, first in lower case, then in upper case.
    fn fix_path_static(&self, path: &[u8], rest: &[u8], insensitive_path: &mut Vec<u8>, buf: [u8; 4]) -> (r: bool)
        requires
            !self.wild_child,
            self.prefix@.len() < path@.len(),
            rest@ == path@.subrange(self.prefix@.len() as int, path@.len() as int),
            !(fix_static(*self, path@, rest@, old(insensitive_path)@, buf@) is Panics),
        ensures
            fix_static(*self, path@, rest@, old(insensitive_path)@, buf@) == Fix::Done(r, final(insensitive_path)@),
        decreases *self, 0int,
    {
        let lower_path = to_ascii_lowercase(path);
        let plen = self.prefix.len();
        let buf1 = shift_buf(buf, plen);
        if buf1[0] == 0 {
            let (enc, off) = pick_char(lower_path.as_slice(), plen);
            let buf2 = shift_buf(write_char(buf1, enc.as_slice()), off);
            let ghost ins1 = insensitive_path@;
            proof {
                lemma_child_for(*self, buf2[0]);
            }
            match position(self.indices, buf2[0]) {
                Some(i) => {
                    let c = &self.children[i];
                    if c.fix_path_helper(rest, insensitive_path, buf2, self.value.len() > 0) {
                        return true;
                    }
                    if insensitive_path.len() > c.prefix.len() {
                        let nl = insensitive_path.len() - c.prefix.len();
                        insensitive_path.truncate(nl);
                        assert(insensitive_path@ =~= insensitive_path@.subrange(0, nl as int));
                    }
                },
                None => {},
            }
            if enc.len() == 1 && 0x61 <= enc[0] && enc[0] <= 0x7a {
                let up: [u8; 1] = [enc[0] - 32];
                assert(up@ =~= seq![(enc@[0] - 32) as u8]);
                let buf3 = shift_buf(write_char(buf2, &up), off);
                proof {
                    lemma_child_for(*self, buf3[0]);
                }
                match position(self.indices, buf3[0]) {
                    Some(i) => {
                        return self.children[i].fix_path_helper(rest, insensitive_path, buf3, self.value.len() > 0);
                    },
                    None => {},
                }
            }
            if rest.len() == 1 && rest[0] == 0x2f {
                assert(rest@ =~= seq![0x2fu8]);
            }
            rest.len() == 1 && rest[0] == 0x2f && self.value.len() > 0
        } else {
            proof {
                lemma_child_for(*self, buf1[0]);
            }
            if rest.len() == 1 && rest[0] == 0x2f {
                assert(rest@ =~= seq![0x2fu8]);
            }
            match position(self.indices, buf1[0]) {
                None => rest.len() == 1 && rest[0] == 0x2f && self.value.len() > 0,
                Some(i) => self.children[i].fix_path_helper(rest, insensitive_path, buf1, self.value.len() > 0),
            }
        }
    }

    /// The lookup at this wildcard node with the rest `path` to match.
    fn fix_path_match_helper(&self, path: &[u8], insensitive_path: &mut Vec<u8>, buf: [u8; 4]) -> (r: bool)
        requires
            !(fix_match(*self, path@, old(insensitive_path)@, buf@) is Panics),
        ensures
            fix_match(*self, path@, old(insensitive_path)@, buf@) == Fix::Done(r, final(insensitive_path)@),
        decreases *self, 0int,
    {
        match self.node_type {
            NodeType::Param => {
                proof {
                    crate::text::lemma_find_byte_from(path@, 0x2fu8, 0);
                }
                let end = match position(path, 0x2f) {
                    Some(e) => e,
                    None => path.len(),
                };
                extend(insensitive_path, vstd::slice::slice_subrange(path, 0, end));
                if end < path.len() {
                    if self.children.len() > 0 {
                        return self.children[0].fix_path_helper(
                            vstd::slice::slice_subrange(path, end, path.len()),
                            insensitive_path,
                            buf,
                            self.value.len() > 0,
                        );
                    }
                    return path.len() == end + 1;
                }
                assert([0x2fu8]@ =~= seq![0x2fu8]);
                if self.value.len() > 0 {
                    true
                } else if self.children.len() == 1 && crate::text::bytes_eq(self.children[0].prefix, &[0x2fu8])
                    && self.children[0].value.len() > 0 {
                    insensitive_path.push(0x2f);
                    true
                } else {
                    false
                }
            },
            NodeType::CatchAll => {
                extend(insensitive_path, path);
                true
            },
            _ => vstd::pervasive::unreached(),
        }
    }
}


} // verus!
