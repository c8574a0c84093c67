//! Byte and string helpers shared by the readers, the router and the
//! extractors. Strings are reasoned about through their UTF-8 bytes.
use vstd::prelude::*;
use vstd::utf8::*;
use vstd::string::StringSliceAdditionalSpecFns;

verus! {

broadcast use vstd::string::group_string_axioms;

/// The UTF-8 bytes of an owned string.
pub open spec fn string_bytes(s: &String) -> Seq<u8> {
    encode_utf8(s@)
}

/// The byte `/`.
pub open spec fn slash() -> Seq<u8> {
    seq![0x2fu8]
}

/// Index of the first occurrence of `b` in `s` at or after `from`, if any.
pub open spec fn find_byte_from(s: Seq<u8>, b: u8, from: int) -> Option<int>
    decreases s.len() - from,
{
    if from < 0 || from >= s.len() {
        None
    } else if s[from] == b {
        Some(from)
    } else {
        find_byte_from(s, b, from + 1)
    }
}

/// Index of the first occurrence of `b` in `s`, if any.
pub open spec fn find_byte(s: Seq<u8>, b: u8) -> Option<int> {
    find_byte_from(s, b, 0)
}

pub proof fn lemma_find_byte_from(s: Seq<u8>, b: u8, from: int)
    requires
        0 <= from,
    ensures
        match find_byte_from(s, b, from) {
            Some(i) => from <= i < s.len() && s[i] == b && forall|k: int|
                from <= k < i ==> s[k] != b,
            None => forall|k: int| from <= k < s.len() ==> s[k] != b,
        },
    decreases s.len() - from,
{
    if from < s.len() && s[from] != b {
        lemma_find_byte_from(s, b, from + 1);
    }
}

/// The chars that a string's bytes decode to are its view.
pub proof fn lemma_str_view(s: &str)
    ensures
        valid_utf8(s.spec_bytes()),
        decode_utf8(s.spec_bytes()) == s@,
{
    encode_utf8_valid_utf8(s@);
    encode_utf8_decode_utf8(s@);
}

/// Encoded chars are valid UTF-8 and decode back to themselves.
pub proof fn lemma_chars_utf8(c: Seq<char>)
    ensures
        valid_utf8(encode_utf8(c)),
        decode_utf8(encode_utf8(c)) == c,
{
    encode_utf8_valid_utf8(c);
    encode_utf8_decode_utf8(c);
}

/// Two strings are equal exactly when their bytes are.
pub proof fn lemma_str_eq_bytes(a: &str, b: &str)
    ensures
        (a@ == b@) <==> (a.spec_bytes() == b.spec_bytes()),
{
    lemma_str_view(a);
    lemma_str_view(b);
}

/// A suffix that starts at a char boundary keeps the char boundaries of the
/// whole.
pub proof fn lemma_boundary_shift(bytes: Seq<u8>, from: int, to: int)
    requires
        valid_utf8(bytes),
        0 <= from <= to <= bytes.len(),
        is_char_boundary(bytes, from),
        is_char_boundary(bytes, to),
    ensures
        valid_utf8(bytes.subrange(from, bytes.len() as int)),
        is_char_boundary(bytes.subrange(from, bytes.len() as int), to - from),
{
    valid_utf8_split(bytes, from);
    let rest = bytes.subrange(from, bytes.len() as int);
    if to == bytes.len() {
        is_char_boundary_start_end_of_seq(rest);
    } else if to == from {
        is_char_boundary_start_end_of_seq(rest);
    } else {
        is_char_boundary_iff_not_is_continuation_byte(bytes, to);
        is_char_boundary_iff_not_is_continuation_byte(rest, to - from);
    }
}

/// An ASCII byte in valid UTF-8 is a whole char: the positions before and
/// after it are char boundaries.
pub proof fn lemma_ascii_boundary(bytes: Seq<u8>, i: int)
    requires
        valid_utf8(bytes),
        0 <= i < bytes.len(),
        bytes[i] < 0x80,
    ensures
        is_char_boundary(bytes, i),
        is_char_boundary(bytes, i + 1),
{
    is_char_boundary_iff_not_is_continuation_byte(bytes, i);
    if i + 1 < bytes.len() {
        lemma_ascii_next_boundary(bytes, i);
    } else {
        is_char_boundary_start_end_of_seq(bytes);
    }
}

proof fn lemma_ascii_next_boundary(bytes: Seq<u8>, i: int)
    requires
        valid_utf8(bytes),
        0 <= i,
        i + 1 < bytes.len(),
        bytes[i] < 0x80,
    ensures
        is_char_boundary(bytes, i + 1),
    decreases bytes.len(),
{
    let w = length_of_first_scalar(bytes);
    let rest = pop_first_scalar(bytes);
    reveal_with_fuel(is_char_boundary, 2);
    if i == 0 {
        assert(w == 1);
        is_char_boundary_start_end_of_seq(rest);
    } else {
        assert(1 <= w <= 4);
        if i < w {
            // bytes inside a multi-byte char are continuation bytes
            assert(is_continuation_byte(bytes[i]));
        } else {
            lemma_ascii_next_boundary(rest, i - w);
        }
    }
}

/// Byte-wise equality of two slices.
pub fn bytes_eq(a: &[u8], b: &[u8]) -> (r: bool)
    ensures
        r == (a@ == b@),
{
    if a.len() != b.len() {
        return false;
    }
    let mut i: usize = 0;
    while i < a.len()
        invariant
            a@.len() == b@.len(),
            i <= a@.len(),
            forall|k: int| 0 <= k < i ==> a@[k] == b@[k],
        decreases a@.len() - i,
    {
        if a[i] != b[i] {
            return false;
        }
        i += 1;
    }
    assert(a@ =~= b@);
    true
}

/// `a` ends with `b`.
pub open spec fn seq_ends_with(a: Seq<u8>, b: Seq<u8>) -> bool {
    b.len() <= a.len() && a.subrange(a.len() - b.len(), a.len() as int) == b
}

/// `a` ends with `b`.
pub fn bytes_end_with(a: &[u8], b: &[u8]) -> (r: bool)
    ensures
        r == seq_ends_with(a@, b@),
{
    if b.len() > a.len() {
        return false;
    }
    let alen = a.len();
    let off = alen - b.len();
    let mut i: usize = 0;
    while i < b.len()
        invariant
            alen == a@.len(),
            off + b@.len() == a@.len(),
            i <= b@.len(),
            forall|k: int| 0 <= k < i ==> a@[off + k] == b@[k],
        decreases b@.len() - i,
    {
        if a[off + i] != b[i] {
            assert(a@.subrange(off as int, a@.len() as int)[i as int] != b@[i as int]);
            return false;
        }
        i += 1;
    }
    assert(a@.subrange(off as int, a@.len() as int) =~= b@);
    true
}

/// Appends `b` to `out`.
pub fn extend(out: &mut Vec<u8>, b: &[u8])
    ensures
        final(out)@ == old(out)@ + b@,
{
    let mut i: usize = 0;
    while i < b.len()
        invariant
            i <= b@.len(),
            out@ == old(out)@ + b@.subrange(0, i as int),
        decreases b@.len() - i,
    {
        out.push(b[i]);
        i += 1;
        assert(b@.subrange(0, i as int) =~= b@.subrange(0, i - 1) + seq![b@[i - 1]]);
    }
    assert(b@.subrange(0, b@.len() as int) =~= b@);
}

/// Equality of two string slices.
pub fn str_eq(a: &str, b: &str) -> (r: bool)
    ensures
        r == (a@ == b@),
{
    proof {
        lemma_str_eq_bytes(a, b);
    }
    bytes_eq(a.as_bytes(), b.as_bytes())
}

/// The part of `s` between the byte offsets `from` and `to`, which must be
/// char boundaries.
pub fn substr<'a>(s: &'a str, from: usize, to: usize) -> (r: &'a str)
    requires
        from <= to <= s.spec_bytes().len(),
        is_char_boundary(s.spec_bytes(), from as int),
        is_char_boundary(s.spec_bytes(), to as int),
    ensures
        r.spec_bytes() == s.spec_bytes().subrange(from as int, to as int),
{
    proof {
        lemma_str_view(s);
    }
    let (_, rest) = s.split_at(from);
    proof {
        lemma_boundary_shift(s.spec_bytes(), from as int, to as int);
    }
    let (mid, _) = rest.split_at(to - from);
    proof {
        assert(mid.spec_bytes() =~= s.spec_bytes().subrange(from as int, to as int));
    }
    mid
}

/// The empty string slice.
pub fn empty_str() -> (r: &'static str)
    ensures
        r@ == Seq::<char>::empty(),
        r.spec_bytes() == Seq::<u8>::empty(),
{
    let r = "";
    proof {
        reveal_strlit("");
        lemma_str_view(r);
    }
    r
}

/// The one-char string `/`.
pub fn slash_str() -> (r: &'static str)
    ensures
        r.spec_bytes() == slash(),
        r@ == seq!['/'],
{
    let r = "/";
    proof {
        reveal_strlit("/");
        assert(r@ =~= seq!['/']);
        assert(is_ascii_chars(r@));
        is_ascii_chars_encode_utf8(r@);
        assert(r.spec_bytes() =~= slash());
    }
    r
}

/// The bytes of a `String` are those of its `as_str`.
pub fn as_str_bytes(s: &String) -> (r: &str)
    ensures
        r@ == s@,
        r.spec_bytes() == encode_utf8(s@),
        valid_utf8(r.spec_bytes()),
        r.spec_bytes().len() <= usize::MAX,
{
    let r = s.as_str();
    proof {
        lemma_str_view(r);
    }
    let b = r.as_bytes();
    let _n = b.len();
    r
}

/// Decodes UTF-8 bytes into an owned string with `String::from_utf8`; `None`
/// where the bytes are not valid UTF-8.
///
/// Trusted: std documents that `String::from_utf8` fails exactly on invalid
/// UTF-8 and otherwise keeps the bytes; the contract says that the result is
/// present exactly for valid UTF-8 and then holds the decoded chars.
#[verifier::external_body]
pub(crate) fn string_from_utf8(bytes: &[u8]) -> (r: Option<String>)
    ensures
        r is Some <==> valid_utf8(bytes@),
        r matches Some(s) ==> s@ == decode_utf8(bytes@),
{
    String::from_utf8(bytes.to_vec()).ok()
}

} // verus!
