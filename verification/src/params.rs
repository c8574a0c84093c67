//! Route parameters collected while matching a path.
use vstd::prelude::*;

use crate::text::str_eq;

verus! {

/// A single URL parameter, consisting of a key and a value.
#[derive(Debug, Clone)]
pub struct Param {
    pub key: String,
    pub value: String,
}

/// Number of parameters held inline before the list moves to the heap; most
/// routes have 1-3 dynamic parameters.
pub const SMALL: usize = 3;

/// Storage of a parameter list.
#[derive(Debug, Clone)]
pub enum ParamsKind {
    Empty,
    Small([Param; SMALL], usize),
    Large(Vec<Param>),
}

/// A list of parameters returned by a route match.
#[derive(Debug, Clone)]
pub struct Params {
    kind: ParamsKind,
}

/// A parameter as a pair of char sequences.
pub open spec fn param_view(p: Param) -> (Seq<char>, Seq<char>) {
    (p.key@, p.value@)
}

/// The value of the first pair in `s` whose key is `key`.
pub open spec fn lookup(s: Seq<(Seq<char>, Seq<char>)>, key: Seq<char>) -> Option<Seq<char>>
    decreases s.len(),
{
    if s.len() == 0 {
        None
    } else if s[0].0 == key {
        Some(s[0].1)
    } else {
        lookup(s.drop_first(), key)
    }
}

fn new_param(key: String, value: String) -> (r: Param)
    ensures
        r.key == key,
        r.value == value,
{
    Param { key, value }
}

fn clone_param(p: &Param) -> (r: Param)
    ensures
        param_view(r) == param_view(*p),
{
    Param { key: p.key.clone(), value: p.value.clone() }
}

fn empty_param() -> (r: Param)
    ensures
        r.key@ == Seq::<char>::empty(),
        r.value@ == Seq::<char>::empty(),
{
    Param { key: String::new(), value: String::new() }
}

impl Params {
    /// The parameters, in the order they were pushed.
    pub closed spec fn view(&self) -> Seq<(Seq<char>, Seq<char>)> {
        match self.kind {
            ParamsKind::Empty => Seq::empty(),
            ParamsKind::Small(arr, len) => arr@.take(len as int).map_values(|p: Param| param_view(p)),
            ParamsKind::Large(v) => v@.map_values(|p: Param| param_view(p)),
        }
    }

    /// The inline storage never claims more than it holds.
    pub closed spec fn wf(&self) -> bool {
        match self.kind {
            ParamsKind::Small(_, len) => len <= SMALL,
            _ => true,
        }
    }

    /// The storage kind in use.
    pub fn kind(&self) -> (r: &ParamsKind)
        ensures
            *r == self.spec_kind(),
    {
        &self.kind
    }

    pub closed spec fn spec_kind(&self) -> ParamsKind {
        self.kind
    }

    /// An empty parameter list, with nothing allocated.
    pub fn new() -> (r: Self)
        ensures
            r.wf(),
            r@ == Seq::<(Seq<char>, Seq<char>)>::empty(),
            r.spec_kind() is Empty,
    {
        Params { kind: ParamsKind::Empty }
    }

    /// Returns the number of parameters.
    pub fn len(&self) -> (r: usize)
        requires
            self.wf(),
        ensures
            r == self@.len(),
    {
        match &self.kind {
            ParamsKind::Empty => 0,
            ParamsKind::Small(_, len) => *len,
            ParamsKind::Large(vec) => vec.len(),
        }
    }

    /// Returns `true` if there are no parameters in the list.
    pub fn is_empty(&self) -> (r: bool)
        requires
            self.wf(),
        ensures
            r == (self@.len() == 0),
    {
        match &self.kind {
            ParamsKind::Empty => true,
            ParamsKind::Small(_, len) => *len == 0,
            ParamsKind::Large(vec) => vec.len() == 0,
        }
    }

    /// Returns the value of the first parameter registered under the given key.
    pub fn get(&self, key: &str) -> (r: Option<&str>)
        requires
            self.wf(),
        ensures
            match r {
                Some(v) => lookup(self@, key@) == Some(v@),
                None => lookup(self@, key@) is None,
            },
    {
        let ghost s = self@;
        let n = self.len();
        let mut i: usize = 0;
        assert(s.skip(0) =~= s);
        while i < n
            invariant
                self.wf(),
                n == s.len(),
                s == self@,
                i <= n,
                lookup(s, key@) == lookup(s.skip(i as int), key@),
            decreases n - i,
        {
            let p = self.param_at(i);
            assert(s.skip(i as int).drop_first() =~= s.skip(i + 1));
            if str_eq(p.key.as_str(), key) {
                return Some(p.value.as_str());
            }
            i += 1;
        }
        None
    }

    /// The parameter at position `i`.
    fn param_at(&self, i: usize) -> (r: &Param)
        requires
            self.wf(),
            i < self@.len(),
        ensures
            param_view(*r) == self@[i as int],
    {
        match &self.kind {
            ParamsKind::Empty => vstd::pervasive::unreached(),
            ParamsKind::Small(arr, _) => &arr[i],
            ParamsKind::Large(vec) => &vec[i],
        }
    }

    /// Returns an iterator over the parameters in the list.
    pub fn iter(&self) -> (r: ParamsIter<'_>)
        requires
            self.wf(),
        ensures
            r.wf(),
            r.remaining() == self@,
    {
        ParamsIter::new(self)
    }

    /// Inserts a key value parameter pair into the list: held inline while
    /// there are at most [`SMALL`], moved to the heap past that.
    pub fn push(&mut self, key: String, value: String)
        requires
            old(self).wf(),
        ensures
            final(self).wf(),
            final(self)@ == old(self)@.push((key@, value@)),
            final(self).spec_kind() is Large <==> (old(self).spec_kind() is Large || old(self)@.len()
                >= SMALL),
            !(final(self).spec_kind() is Empty),
    {
        let param = new_param(key, value);
        let mut kind = ParamsKind::Empty;
        std::mem::swap(&mut kind, &mut self.kind);
        match kind {
            ParamsKind::Empty => {
                let arr = [param, empty_param(), empty_param()];
                self.kind = ParamsKind::Small(arr, 1);
                assert(self@ =~= Seq::<(Seq<char>, Seq<char>)>::empty().push((key@, value@)));
            },
            ParamsKind::Small(mut arr, len) => {
                if len == SMALL {
                    let vec = vec![clone_param(&arr[0]), clone_param(&arr[1]), clone_param(&arr[2]), param];
                    self.kind = ParamsKind::Large(vec);
                    assert(self@ =~= old(self)@.push((key@, value@)));
                } else {
                    arr[len] = param;
                    self.kind = ParamsKind::Small(arr, len + 1);
                    assert(self@ =~= old(self)@.push((key@, value@)));
                }
            },
            ParamsKind::Large(mut vec) => {
                vec.push(param);
                self.kind = ParamsKind::Large(vec);
                assert(self@ =~= old(self)@.push((key@, value@)));
            },
        }
    }

    /// Appends all parameters of `other`, in their order, as pushing each
    /// of them would.
    pub fn merge(&mut self, other: Params)
        requires
            old(self).wf(),
            other.wf(),
        ensures
            final(self).wf(),
            final(self)@ == old(self)@ + other@,
            other@.len() == 0 ==> final(self).spec_kind() == old(self).spec_kind(),
            other@.len() > 0 ==> !(final(self).spec_kind() is Empty) && (final(self).spec_kind() is Large
                <==> (old(self).spec_kind() is Large || old(self)@.len() + other@.len() > SMALL)),
    {
        let n = other.len();
        let mut i: usize = 0;
        while i < n
            invariant
                self.wf(),
                other.wf(),
                n == other@.len(),
                i <= n,
                self@ == old(self)@ + other@.take(i as int),
                i == 0 ==> self.spec_kind() == old(self).spec_kind(),
                i > 0 ==> !(self.spec_kind() is Empty) && (self.spec_kind() is Large <==> (old(
                    self,
                ).spec_kind() is Large || old(self)@.len() + i > SMALL)),
            decreases n - i,
        {
            let p = other.param_at(i);
            let key = p.key.clone();
            let value = p.value.clone();
            self.push(key, value);
            assert(other@.take(i + 1) =~= other@.take(i as int).push(other@[i as int]));
            assert(self@ =~= old(self)@ + other@.take(i + 1));
            i += 1;
        }
        assert(other@.take(n as int) =~= other@);
    }

    /// Keeps the first `n` parameters.
    pub(crate) fn truncate(&mut self, n: usize)
        requires
            old(self).wf(),
            n <= old(self)@.len(),
        ensures
            final(self).wf(),
            final(self)@ == old(self)@.take(n as int),
    {
        let mut kind = ParamsKind::Empty;
        std::mem::swap(&mut kind, &mut self.kind);
        match kind {
            ParamsKind::Empty => {
                assert(old(self)@.take(n as int) =~= old(self)@);
            },
            ParamsKind::Small(arr, len) => {
                self.kind = ParamsKind::Small(arr, n);
                assert(self@ =~= old(self)@.take(n as int));
            },
            ParamsKind::Large(mut vec) => {
                vec.truncate(n);
                self.kind = ParamsKind::Large(vec);
                assert(self@ =~= old(self)@.take(n as int));
            },
        }
    }
}

/// An iterator over the keys and values of a route's [parameters](Params).
pub struct ParamsIter<'ps> {
    params: &'ps Params,
    index: usize,
}

impl<'ps> ParamsIter<'ps> {
    /// The parameters not yet yielded.
    pub closed spec fn remaining(&self) -> Seq<(Seq<char>, Seq<char>)> {
        self.params@.skip(self.index as int)
    }

    pub closed spec fn wf(&self) -> bool {
        self.params.wf() && self.index <= self.params@.len()
    }

    pub(crate) fn new(params: &'ps Params) -> (r: Self)
        requires
            params.wf(),
        ensures
            r.wf(),
            r.remaining() == params@,
    {
        let r = ParamsIter { params, index: 0 };
        assert(params@.skip(0) =~= params@);
        r
    }

    /// Yields the next key and value, in the order they were pushed.
    pub fn next(&mut self) -> (r: Option<(&'ps str, &'ps str)>)
        requires
            old(self).wf(),
        ensures
            final(self).wf(),
            match r {
                Some((k, v)) => old(self).remaining().len() > 0 && (k@, v@) == old(
                    self,
                ).remaining()[0] && final(self).remaining() == old(self).remaining().drop_first(),
                None => old(self).remaining().len() == 0 && final(self).remaining() == old(
                    self,
                ).remaining(),
            },
    {
        if self.index < self.params.len() {
            let p = self.params.param_at(self.index);
            let ghost before = self.remaining();
            self.index = self.index + 1;
            assert(self.remaining() =~= before.drop_first());
            Some((p.key.as_str(), p.value.as_str()))
        } else {
            None
        }
    }
}

/// Pushing then looking up a key gives the value of its first occurrence:
/// the new value when the key was not present before, the earlier one
/// otherwise.
pub proof fn law_lookup_after_push(
    s: Seq<(Seq<char>, Seq<char>)>,
    key: Seq<char>,
    value: Seq<char>,
)
    ensures
        lookup(s.push((key, value)), key) == Some(
            match lookup(s, key) {
                Some(v) => v,
                None => value,
            },
        ),
    decreases s.len(),
{
    if s.len() > 0 {
        assert(s.push((key, value)).drop_first() =~= s.drop_first().push((key, value)));
        law_lookup_after_push(s.drop_first(), key, value);
    }
}

/// Keys other than the pushed one keep their lookup.
pub proof fn law_lookup_other_key(
    s: Seq<(Seq<char>, Seq<char>)>,
    key: Seq<char>,
    value: Seq<char>,
    other: Seq<char>,
)
    requires
        other != key,
    ensures
        lookup(s.push((key, value)), other) == lookup(s, other),
    decreases s.len(),
{
    if s.len() > 0 {
        assert(s.push((key, value)).drop_first() =~= s.drop_first().push((key, value)));
        law_lookup_other_key(s.drop_first(), key, value, other);
    } else {
        let t = s.push((key, value));
        assert(t.drop_first() =~= Seq::<(Seq<char>, Seq<char>)>::empty());
        assert(t[0].0 != other);
        assert(lookup(t.drop_first(), other) is None);
    }
}

} // verus!
