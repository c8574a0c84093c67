//! A uri reader with private state, used by the routers that read a param
//! as a `Result`.
use vstd::prelude::*;
use vstd::string::StringSliceAdditionalSpecFns;
use vstd::utf8::*;

use crate::reader::{ascii_between, segment_end};
use crate::text::{
    as_str_bytes, bytes_eq, empty_str, find_byte_from, lemma_ascii_boundary, lemma_chars_utf8,
    lemma_find_byte_from, slash, slash_str, substr,
};

verus! {

/// Error of reading a param.
#[derive(Debug, PartialEq, Eq)]
pub enum UriReadError {
    EmptyOnExpectedParam,
}

/// A uri string and a cursor into it.
#[derive(Clone, Debug)]
pub struct UriReader {
    uri: String,
    cursor: usize,
}

impl UriReader {
    /// The uri's chars.
    pub closed spec fn uri(&self) -> Seq<char> {
        self.uri@
    }

    /// The UTF-8 bytes of the uri.
    pub open spec fn bytes(&self) -> Seq<u8> {
        encode_utf8(self.uri())
    }

    /// The cursor, a byte offset into the uri.
    pub closed spec fn cursor(&self) -> usize {
        self.cursor
    }

    /// `i` splits the uri between two chars.
    pub open spec fn boundary(&self, i: int) -> bool {
        is_char_boundary(self.bytes(), i)
    }

    /// Creates a reader with the cursor at the start of `uri`.
    pub fn new(uri: String) -> (r: UriReader)
        ensures
            r.uri() == uri@,
            r.cursor() == 0,
    {
        UriReader { uri, cursor: 0 }
    }

    /// Returns the next `len` bytes of the uri without moving the cursor,
    /// or the empty string where fewer remain.
    pub fn peek(&self, len: usize) -> (r: &str)
        requires
            self.cursor() + len <= usize::MAX,
            self.cursor() + len <= self.bytes().len() ==> self.boundary(self.cursor() as int)
                && self.boundary(self.cursor() + len),
        ensures
            self.cursor() + len <= self.bytes().len() ==> r.spec_bytes() == self.bytes().subrange(
                self.cursor() as int,
                self.cursor() + len,
            ),
            self.cursor() + len > self.bytes().len() ==> r@.len() == 0,
    {
        let read_attempt = self.cursor + len;
        let s = as_str_bytes(&self.uri);
        if s.len() >= read_attempt {
            return substr(s, self.cursor, read_attempt);
        }
        empty_str()
    }

    /// Whether the rest of the uri is empty or a single `/`.
    pub fn is_dangling_slash(&self) -> (r: bool)
        requires
            self.bytes().len() != self.cursor() ==> self.cursor() <= self.bytes().len()
                && self.boundary(self.cursor() as int),
        ensures
            r == (self.bytes().len() == self.cursor() || self.bytes().subrange(
                self.cursor() as int,
                self.bytes().len() as int,
            ) == slash()),
    {
        let s = as_str_bytes(&self.uri);
        if s.len() == self.cursor {
            return true;
        }
        proof {
            is_char_boundary_start_end_of_seq(s.spec_bytes());
        }
        let rest = substr(s, self.cursor, s.len());
        bytes_eq(rest.as_bytes(), slash_str().as_bytes())
    }

    /// Moves the cursor forward by `len` bytes.
    pub fn read(&mut self, len: usize)
        requires
            old(self).cursor() + len <= usize::MAX,
        ensures
            final(self).uri() == old(self).uri(),
            final(self).cursor() == old(self).cursor() + len,
    {
        self.cursor = self.cursor + len;
    }

    /// Reads a single `/`, returning whether there was one.
    pub fn ensure_next_slash(&mut self) -> (r: bool)
        requires
            old(self).cursor() + 1 <= usize::MAX,
            old(self).cursor() + 1 <= old(self).bytes().len() ==> old(self).boundary(
                old(self).cursor() as int,
            ) && old(self).boundary(old(self).cursor() + 1),
        ensures
            final(self).uri() == old(self).uri(),
            r == (old(self).cursor() < old(self).bytes().len() && old(self).bytes()[old(
                self,
            ).cursor() as int] == 0x2f),
            r ==> final(self).cursor() == old(self).cursor() + 1,
            !r ==> final(self).cursor() == old(self).cursor(),
    {
        let next = self.peek(1);
        proof {
            if old(self).cursor() < old(self).bytes().len() {
                let x = old(self).bytes()[old(self).cursor() as int];
                assert(next.spec_bytes() =~= seq![x]);
                assert(seq![x][0] == x);
                assert(slash()[0] == 0x2f);
                if x == 0x2f {
                    assert(seq![x] =~= slash());
                }
            }
        }
        if bytes_eq(next.as_bytes(), slash_str().as_bytes()) {
            self.read(1);
            return true;
        }
        false
    }

    /// Moves the cursor back to the start.
    pub fn reset(&mut self)
        ensures
            final(self).uri() == old(self).uri(),
            final(self).cursor() == 0,
    {
        self.cursor = 0;
    }

    /// Whether the cursor has reached the end of the uri.
    pub fn is_empty(&self) -> (r: bool)
        ensures
            r == (self.bytes().len() <= self.cursor()),
    {
        as_str_bytes(&self.uri).len() <= self.cursor
    }

    /// Reads a param until the next `/` or the end of the uri; an error where
    /// it would be empty.
    pub fn read_param(&mut self) -> (r: Result<&str, UriReadError>)
        requires
            old(self).cursor() < old(self).bytes().len() ==> old(self).boundary(
                old(self).cursor() as int,
            ) && ascii_between(
                old(self).bytes(),
                old(self).cursor() as int,
                segment_end(old(self).bytes(), old(self).cursor() as int),
            ),
        ensures
            final(self).uri() == old(self).uri(),
            final(self).cursor() == segment_end(old(self).bytes(), old(self).cursor() as int),
            match r {
                Err(e) => final(self).cursor() == old(self).cursor() && e
                    == UriReadError::EmptyOnExpectedParam,
                Ok(p) => final(self).cursor() != old(self).cursor() && p.spec_bytes() == old(
                    self,
                ).bytes().subrange(old(self).cursor() as int, final(self).cursor() as int),
            },
    {
        let ghost bytes = self.bytes();
        let ghost start = self.cursor as int;
        proof {
            lemma_find_byte_from(bytes, 0x2fu8, start);
            lemma_chars_utf8(self.uri@);
        }
        let initial_cursor = self.cursor;
        let n = as_str_bytes(&self.uri).len();
        while self.cursor < n
            invariant
                self.uri() == old(self).uri(),
                n == bytes.len(),
                bytes == self.bytes(),
                valid_utf8(bytes),
                start == initial_cursor,
                start <= self.cursor,
                start < bytes.len() ==> self.cursor <= n,
                start >= bytes.len() ==> self.cursor == start,
                start < bytes.len() ==> self.cursor <= segment_end(bytes, start),
                start < bytes.len() ==> ascii_between(bytes, start, segment_end(bytes, start)),
                forall|k: int| start <= k < self.cursor ==> bytes[k] != 0x2f,
                match find_byte_from(bytes, 0x2fu8, start) {
                    Some(i) => start <= i < bytes.len() && bytes[i] == 0x2f && forall|k: int|
                        start <= k < i ==> bytes[k] != 0x2f,
                    None => forall|k: int| start <= k < bytes.len() ==> bytes[k] != 0x2f,
                },
            ensures
                self.uri() == old(self).uri(),
                self.cursor == segment_end(bytes, start),
                start < bytes.len() ==> self.cursor <= n,
            decreases bytes.len() - self.cursor,
        {
            proof {
                lemma_ascii_boundary(bytes, self.cursor as int);
            }
            let next = self.peek(1);
            proof {
                assert(next.spec_bytes() =~= seq![bytes[self.cursor as int]]);
            }
            if next.as_bytes()[0] != 0x2f {
                self.read(1);
            } else {
                break;
            }
        }
        if initial_cursor == self.cursor {
            return Err(UriReadError::EmptyOnExpectedParam);
        }
        proof {
            if start < bytes.len() {
                lemma_ascii_boundary(bytes, start);
                if self.cursor < bytes.len() {
                    lemma_ascii_boundary(bytes, self.cursor as int);
                } else {
                    is_char_boundary_start_end_of_seq(bytes);
                }
            }
        }
        Ok(substr(as_str_bytes(&self.uri), initial_cursor, self.cursor))
    }

    /// Whether the rest of the uri, which must not be empty, is `suffix`.
    pub fn ends_with(&self, suffix: &str) -> (r: bool)
        requires
            self.cursor() < self.bytes().len() ==> self.boundary(self.cursor() as int),
        ensures
            r == (self.cursor() < self.bytes().len() && self.bytes().subrange(
                self.cursor() as int,
                self.bytes().len() as int,
            ) == suffix.spec_bytes()),
    {
        let s = as_str_bytes(&self.uri);
        if self.cursor >= s.len() {
            return false;
        }
        proof {
            is_char_boundary_start_end_of_seq(s.spec_bytes());
        }
        let end = substr(s, self.cursor, s.len());
        bytes_eq(end.as_bytes(), suffix.as_bytes())
    }
}

} // verus!
