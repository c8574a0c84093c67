//! Uri reader using a cursor.
//!
//! The `router!` macro uses this internally for routing.
use vstd::prelude::*;
use vstd::string::StringSliceAdditionalSpecFns;
use vstd::utf8::*;

use crate::text::{bytes_eq, bytes_end_with, seq_ends_with, empty_str, find_byte_from, lemma_ascii_boundary, lemma_find_byte_from, lemma_chars_utf8, lemma_str_view, slash, slash_str, as_str_bytes, substr};

verus! {

/// A uri string and cursor reader.
#[derive(Clone, Debug)]
pub struct UriReader {
    /// Request uri.
    pub uri: String,
    /// Request uri cursor.
    pub cursor: usize,
}

/// Where a parameter that starts at `from` ends: the next `/` or the end.
pub open spec fn segment_end(bytes: Seq<u8>, from: int) -> int {
    match find_byte_from(bytes, 0x2fu8, from) {
        Some(i) => i,
        None => if from < bytes.len() {
            bytes.len() as int
        } else {
            from
        },
    }
}

/// The bytes from `from` to `to` are ASCII.
pub open spec fn ascii_between(bytes: Seq<u8>, from: int, to: int) -> bool {
    forall|k: int| from <= k < to ==> #[trigger] bytes[k] < 0x80
}

impl UriReader {
    /// The UTF-8 bytes of the uri.
    pub open spec fn bytes(&self) -> Seq<u8> {
        encode_utf8(self.uri@)
    }

    /// `i` splits the uri between two chars.
    pub open spec fn boundary(&self, i: int) -> bool {
        is_char_boundary(self.bytes(), i)
    }

    /// Creates a new [`UriReader`] with the cursor set to `0`.
    pub fn new(uri: String) -> (r: UriReader)
        ensures
            r.uri == uri,
            r.cursor == 0,
    {
        UriReader { uri, cursor: 0 }
    }

    /// Returns the next `len` characters from the uri, without modifying the
    /// cursor position.
    pub fn peek(&self, len: usize) -> (r: &str)
        requires
            self.cursor + len <= usize::MAX,
            self.cursor + len <= self.bytes().len() ==> self.boundary(self.cursor as int)
                && self.boundary(self.cursor + len),
        ensures
            self.cursor + len <= self.bytes().len() ==> r.spec_bytes() == self.bytes().subrange(
                self.cursor as int,
                self.cursor + len,
            ),
            self.cursor + len > self.bytes().len() ==> r@.len() == 0,
    {
        let read_attempt = self.cursor + len;
        let s = as_str_bytes(&self.uri);
        if s.len() >= read_attempt {
            return substr(s, self.cursor, read_attempt);
        }
        empty_str()
    }

    /// Returns a bool indicating whether the reader has reached the end,
    /// disregarding any trailing slash.
    pub fn is_dangling_slash(&self) -> (r: bool)
        ensures
            r == (self.bytes().len() <= self.cursor || self.bytes().subrange(
                self.cursor as int,
                self.bytes().len() as int,
            ) == slash()),
    {
        let s = as_str_bytes(&self.uri);
        proof {
            lemma_str_view(s);
        }
        if s.len() <= self.cursor {
            return true;
        }
        if s.len() - self.cursor != 1 {
            assert(self.bytes().subrange(self.cursor as int, self.bytes().len() as int).len() != 1);
            return false;
        }
        let b = s.as_bytes();
        assert(b@ == self.bytes());
        let r = b[self.cursor] == 0x2f;
        proof {
            let rest = self.bytes().subrange(self.cursor as int, self.bytes().len() as int);
            assert(rest.len() == 1 && rest[0] == b@[self.cursor as int]);
            if r {
                assert(rest =~= slash());
            } else {
                assert(rest[0] != slash()[0]);
            }
        }
        r
    }

    /// Returns a bool indicating whether the reader has reached the end,
    /// disregarding any trailing slash.
    pub fn is_dangling_terminal_slash(&self) -> (r: bool)
        requires
            self.bytes().len() != self.cursor ==> self.cursor < self.bytes().len() && self.boundary(
                self.cursor as int,
            ) && self.boundary(self.cursor + 1),
        ensures
            r == (self.bytes().len() == self.cursor || (self.bytes()[self.cursor as int] == 0x2f
                && self.bytes().len() - self.cursor == 1)),
    {
        let s = as_str_bytes(&self.uri);
        if s.len() == self.cursor {
            return true;
        }
        let next = substr(s, self.cursor, self.cursor + 1);
        next.as_bytes()[0] == 0x2f && s.len() - self.cursor == 1
    }

    /// Move the cursor forward based on `len`.
    pub fn read(&mut self, len: usize)
        requires
            old(self).cursor + len <= usize::MAX,
        ensures
            final(self).uri == old(self).uri,
            final(self).cursor == old(self).cursor + len,
    {
        self.cursor = self.cursor + len;
    }

    /// Attempt to read `s` from the current cursor position, modifying the
    /// cursor if a match was found.
    ///
    /// `true` is returned if `s` matched the uri and the cursor was updated.
    pub fn read_matching(&mut self, s: &str) -> (r: bool)
        requires
            old(self).cursor + s.spec_bytes().len() <= old(self).bytes().len() ==> old(
                self,
            ).boundary(old(self).cursor as int) && old(self).boundary(
                old(self).cursor + s.spec_bytes().len(),
            ),
        ensures
            final(self).uri == old(self).uri,
            r == (old(self).cursor + s.spec_bytes().len() <= old(self).bytes().len() && old(
                self,
            ).bytes().subrange(
                old(self).cursor as int,
                old(self).cursor + s.spec_bytes().len(),
            ) == s.spec_bytes()),
            r ==> final(self).cursor == old(self).cursor + s.spec_bytes().len(),
            !r ==> final(self).cursor == old(self).cursor,
    {
        let u = as_str_bytes(&self.uri);
        let len = u.len();
        let slen = s.as_bytes().len();
        if self.cursor > len || slen > len - self.cursor {
            return false;
        }
        let read_to = self.cursor + slen;
        let part = substr(u, self.cursor, read_to);
        if bytes_eq(part.as_bytes(), s.as_bytes()) {
            self.cursor = read_to;
            return true;
        }
        false
    }

    /// Reads a single `/` character, modifying the cursor and returning whether
    /// there was a match.
    pub fn ensure_next_slash(&mut self) -> (r: bool)
        requires
            old(self).cursor + 1 <= old(self).bytes().len() ==> old(self).boundary(
                old(self).cursor as int,
            ) && old(self).boundary(old(self).cursor + 1),
        ensures
            final(self).uri == old(self).uri,
            r == (old(self).cursor < old(self).bytes().len() && old(self).bytes()[old(
                self,
            ).cursor as int] == 0x2f),
            r ==> final(self).cursor == old(self).cursor + 1,
            !r ==> final(self).cursor == old(self).cursor,
    {
        let r = self.read_matching(slash_str());
        proof {
            if old(self).cursor < old(self).bytes().len() {
                let x = old(self).bytes()[old(self).cursor as int];
                assert(old(self).bytes().subrange(old(self).cursor as int, old(self).cursor + 1)
                    =~= seq![x]);
                assert(seq![x][0] == x);
                assert(slash()[0] == 0x2f);
                if x == 0x2f {
                    assert(seq![x] =~= slash());
                }
            }
        }
        r
    }

    /// Reset the cursor to the start of the uri.
    pub fn reset(&mut self)
        ensures
            final(self).uri == old(self).uri,
            final(self).cursor == 0,
    {
        self.cursor = 0;
    }

    /// Check if the cursor has reached the end of the uri, optionally allowing
    /// for a trailing slash.
    pub fn is_empty(&self, allow_trailing_slash: bool) -> (r: bool)
        requires
            allow_trailing_slash && self.cursor < self.bytes().len() ==> self.boundary(
                self.cursor as int,
            ),
        ensures
            r == (self.bytes().len() <= self.cursor || (allow_trailing_slash
                && self.bytes().subrange(self.cursor as int, self.bytes().len() as int) == slash())),
    {
        let s = as_str_bytes(&self.uri);
        if allow_trailing_slash {
            if s.len() <= self.cursor {
                return true;
            }
            proof {
                is_char_boundary_start_end_of_seq(s.spec_bytes());
            }
            let rest = substr(s, self.cursor, s.len());
            let b = rest.as_bytes();
            proof {
                if b@.len() == 1 {
                    assert(b@ =~= seq![b@[0]]);
                    assert(slash()[0] == 0x2f);
                    if b@[0] == 0x2f {
                        assert(b@ =~= slash());
                    }
                }
                if b@ == slash() {
                    assert(b@.len() == 1);
                }
            }
            b.len() == 1 && b[0] == 0x2f
        } else {
            s.len() <= self.cursor
        }
    }

    /// Read a param until the next `/` or end of uri.
    pub fn read_param(&mut self) -> (r: Option<&str>)
        requires
            old(self).cursor < old(self).bytes().len() ==> old(self).boundary(
                old(self).cursor as int,
            ) && ascii_between(
                old(self).bytes(),
                old(self).cursor as int,
                segment_end(old(self).bytes(), old(self).cursor as int),
            ),
        ensures
            final(self).uri == old(self).uri,
            final(self).cursor == segment_end(old(self).bytes(), old(self).cursor as int),
            match r {
                None => final(self).cursor == old(self).cursor,
                Some(p) => final(self).cursor != old(self).cursor && p.spec_bytes() == old(
                    self,
                ).bytes().subrange(old(self).cursor as int, final(self).cursor as int),
            },
    {
        let ghost bytes = self.bytes();
        let ghost start = self.cursor as int;
        proof {
            lemma_find_byte_from(bytes, 0x2fu8, start);
            lemma_chars_utf8(self.uri@);
        }
        let initial_cursor = self.cursor;
        let n = as_str_bytes(&self.uri).len();
        while self.cursor < n
            invariant
                self.uri == old(self).uri,
                n == bytes.len(),
                bytes == self.bytes(),
                valid_utf8(bytes),
                start == initial_cursor,
                start <= self.cursor,
                start < bytes.len() ==> self.cursor <= n,
                start >= bytes.len() ==> self.cursor == start,
                start < bytes.len() ==> self.cursor <= segment_end(bytes, start),
                start < bytes.len() ==> ascii_between(bytes, start, segment_end(bytes, start)),
                forall|k: int| start <= k < self.cursor ==> bytes[k] != 0x2f,
                match find_byte_from(bytes, 0x2fu8, start) {
                    Some(i) => start <= i < bytes.len() && bytes[i] == 0x2f && forall|k: int|
                        start <= k < i ==> bytes[k] != 0x2f,
                    None => forall|k: int| start <= k < bytes.len() ==> bytes[k] != 0x2f,
                },
            ensures
                self.uri == old(self).uri,
                self.cursor == segment_end(bytes, start),
                start < bytes.len() ==> self.cursor <= n,
            decreases bytes.len() - self.cursor,
        {
            proof {
                lemma_ascii_boundary(bytes, self.cursor as int);
            }
            let next = self.peek(1);
            proof {
                assert(next.spec_bytes() =~= seq![bytes[self.cursor as int]]);
            }
            if next.as_bytes()[0] != 0x2f {
                self.read(1);
            } else {
                break;
            }
        }
        if initial_cursor == self.cursor {
            return None;
        }
        proof {
            if start < bytes.len() {
                lemma_ascii_boundary(bytes, start);
                if self.cursor < bytes.len() {
                    lemma_ascii_boundary(bytes, self.cursor as int);
                } else {
                    is_char_boundary_start_end_of_seq(bytes);
                }
            }
        }
        Some(substr(as_str_bytes(&self.uri), initial_cursor, self.cursor))
    }

    /// Check if the uri ends with `suffix`.
    pub fn ends_with(&self, suffix: &str) -> (r: bool)
        requires
            self.cursor < self.bytes().len() ==> self.boundary(self.cursor as int),
        ensures
            r == (self.cursor < self.bytes().len() && seq_ends_with(
                self.bytes().subrange(self.cursor as int, self.bytes().len() as int),
                suffix.spec_bytes(),
            )),
    {
        let s = as_str_bytes(&self.uri);
        if self.cursor >= s.len() {
            return false;
        }
        proof {
            lemma_str_view(s);
            is_char_boundary_start_end_of_seq(s.spec_bytes());
        }
        let end = substr(s, self.cursor, s.len());
        bytes_end_with(end.as_bytes(), suffix.as_bytes())
    }

    /// Returns the remainder of the uri from the current cursor position.
    pub fn read_to_end(&self) -> (r: &str)
        requires
            self.cursor <= self.bytes().len(),
            self.boundary(self.cursor as int),
        ensures
            r.spec_bytes() == self.bytes().subrange(self.cursor as int, self.bytes().len() as int),
    {
        let s = as_str_bytes(&self.uri);
        proof {
            lemma_str_view(s);
            is_char_boundary_start_end_of_seq(s.spec_bytes());
        }
        substr(s, self.cursor, s.len())
    }
}

} // verus!
