//! Errors of inserting a route and of matching a path.
use vstd::prelude::*;

verus! {

/// Why a path did not match a route.
#[derive(Debug, Clone, Copy, PartialEq, Eq, Structural)]
pub enum MatchError {
    /// The path misses a trailing slash that a route has.
    MissingTrailingSlash,
    /// The path has a trailing slash that the route lacks.
    ExtraTrailingSlash,
    /// No route matches the path.
    NotFound,
}

/// The trailing-slash error for a path that ends at a node with a wildcard
/// child: an extra slash where the path ends with one, a missing one
/// otherwise.
pub open spec fn spec_unsure(full_path: Seq<u8>) -> MatchError {
    if full_path.last() == 0x2f {
        MatchError::ExtraTrailingSlash
    } else {
        MatchError::MissingTrailingSlash
    }
}

impl MatchError {
    /// The trailing-slash error for `full_path`, which must not be empty.
    pub fn unsure(full_path: &[u8]) -> (r: MatchError)
        requires
            full_path@.len() > 0,
        ensures
            r == spec_unsure(full_path@),
    {
        if full_path[full_path.len() - 1] == 0x2f {
            MatchError::ExtraTrailingSlash
        } else {
            MatchError::MissingTrailingSlash
        }
    }
}

/// Why a route could not be inserted.
#[derive(Debug, Clone, PartialEq, Eq)]
pub enum InsertError {
    /// The route conflicts with the route given in `with`.
    Conflict { with: String },
    /// A wildcard name holds another `:` or `*`.
    TooManyParams,
    /// A wildcard has no name.
    UnnamedParam,
    /// A catch-all is not the last segment of the route.
    InvalidCatchAll,
}

} // verus!
