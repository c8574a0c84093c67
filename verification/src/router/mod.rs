//! A URL router: a radix tree of routes with parameters and catch-alls.
use vstd::prelude::*;
use vstd::string::StringSliceAdditionalSpecFns;

use crate::params::Params;

pub mod error;
pub mod fix;
pub mod lookup;
pub mod priorities;
pub mod routes;
pub mod insert;
pub mod tree;

use self::error::MatchError;
use self::fix::spec_fix_path;
use self::priorities::spec_check_priorities;
use self::lookup::{spec_at, Lookup};
use self::tree::ConstNode;

verus! {

/// A URL router.
pub struct Router<'a, T> {
    root: ConstNode<'a, T>,
}

/// A successful match consisting of the registered value and URL
/// parameters, returned by [`Router::at`].
#[derive(Debug)]
pub struct Match<V> {
    /// The value stored under the matched node.
    pub value: V,
    /// The route parameters.
    pub params: Params,
}

impl<'a, T> Default for Router<'a, T> {
    fn default() -> (r: Self)
        ensures
            r.root().children@.len() == 0,
            r.root().prefix@.len() == 0,
            r.root().value@.len() == 0,
    {
        Router { root: ConstNode::default() }
    }
}

impl<'a, T> Router<'a, T> {
    /// The root of the router's tree.
    pub closed spec fn root(&self) -> ConstNode<'a, T> {
        self.root
    }

    /// Construct a new, empty router.
    pub fn new() -> (r: Self)
        ensures
            r.root().children@.len() == 0,
            r.root().prefix@.len() == 0,
            r.root().value@.len() == 0,
    {
        Self::default()
    }

    /// Construct a router from a tree built ahead of time.
    pub fn from_node(node: ConstNode<'a, T>) -> (r: Self)
        ensures
            r.root() == node,
    {
        Router { root: node }
    }

    /// Tries to find a value in the router matching the given path.
    pub fn at<'m>(&'m self, path: &str) -> (r: Result<Match<&'m [T]>, MatchError>)
        requires
            !(spec_at(self.root(), path.spec_bytes()) matches Lookup::Panics),
        ensures
            match r {
                Ok(m) => spec_at(self.root(), path.spec_bytes()) == Lookup::Found(
                    m.value@,
                    m.params@,
                ) && m.params.wf(),
                Err(e) => spec_at(self.root(), path.spec_bytes()) == Lookup::<T>::Failed(e),
            },
    {
        match self.root.at(path.as_bytes()) {
            Ok((value, params)) => Ok(Match { value, params }),
            Err(e) => Err(e),
        }
    }

    /// Makes a case-insensitive lookup of `path`: the path of the route that
    /// `path` names with other letter case, or with a trailing slash added or
    /// removed; `None` where there is none.
    pub fn fix_path(&self, path: &str) -> (r: Option<String>)
        requires
            spec_fix_path(self.root(), path.spec_bytes()) is Some,
        ensures
            match r {
                Some(s) => spec_fix_path(self.root(), path.spec_bytes()) == Some(Some(s@)),
                None => spec_fix_path(self.root(), path.spec_bytes()) == Some(None::<Seq<char>>),
            },
    {
        self.root.fix_path(path)
    }

    /// Checks that each node's priority is the number of values held at it
    /// and below it.
    pub fn check_priorities(&self) -> (r: Result<u32, (u32, u32)>)
        requires
            spec_check_priorities(self.root()) is Some,
        ensures
            spec_check_priorities(self.root()) == Some(r),
    {
        self.root.check_priorities()
    }
}

} // verus!
