//! Inserting routes into a tree of [`Node`]s.
use vstd::prelude::*;

use vstd::utf8::*;

use crate::router::error::InsertError;
use crate::router::tree::{Node, NodeType};
use crate::text::{bytes_end_with, extend, seq_ends_with, string_from_utf8};

verus! {

/// What a [`Node`] holds, with its values counted.
pub ghost struct Shape {
    pub priority: int,
    pub wild_child: bool,
    pub indices: Seq<u8>,
    pub node_type: NodeType,
    pub values: nat,
    pub prefix: Seq<u8>,
    pub children: Seq<Shape>,
}

/// The shape of `Node::default()`.
pub open spec fn empty_shape() -> Shape {
    Shape {
        priority: 0,
        wild_child: false,
        indices: Seq::empty(),
        node_type: NodeType::Static,
        values: 0,
        prefix: Seq::empty(),
        children: Seq::empty(),
    }
}

/// The shape of a node.
pub open spec fn shape<T>(n: Node<T>) -> Shape
    decreases n,
{
    Shape {
        priority: n.priority as int,
        wild_child: n.wild_child,
        indices: n.indices@,
        node_type: n.node_type,
        values: n.value@.len(),
        prefix: n.prefix@,
        children: Seq::new(
            n.children@.len(),
            |i: int|
                if 0 <= i < n.children@.len() {
                    shape(n.children@[i])
                } else {
                    empty_shape()
                },
        ),
    }
}

/// The node reached from `n` through the child positions `p`.
pub open spec fn node_at<T>(n: Node<T>, p: Seq<int>) -> Option<Node<T>>
    decreases p.len(),
{
    if p.len() == 0 {
        Some(n)
    } else if 0 <= p[0] < n.children@.len() {
        node_at(n.children@[p[0]], p.drop_first())
    } else {
        None
    }
}

/// The node at `p` holds `val` as its last value.
pub open spec fn last_value_at<T>(n: Node<T>, p: Seq<int>, val: T) -> bool {
    match node_at(n, p) {
        Some(m) => m.value@.len() > 0 && m.value@.last() == val,
        None => false,
    }
}

/// Some node of the tree holds `val` as its last value: where a route
/// that was inserted under `val` ends.
pub open spec fn holds_last<T>(n: Node<T>, val: T) -> bool {
    exists|p: Seq<int>| #[trigger] last_value_at(n, p, val)
}

/// A node that holds `val` last in the subtree of child `k` does so in the
/// whole tree too.
pub proof fn lemma_holds_last_child<T>(n: Node<T>, k: int, val: T)
    requires
        0 <= k < n.children@.len(),
        holds_last(n.children@[k], val),
    ensures
        holds_last(n, val),
{
    let p = choose|p: Seq<int>| #[trigger] last_value_at(n.children@[k], p, val);
    let q = seq![k] + p;
    assert(q.drop_first() =~= p);
    assert(last_value_at(n, q, val));
}

/// The root holds `val` as its last value.
pub proof fn lemma_holds_last_here<T>(n: Node<T>, val: T)
    requires
        n.value@.len() > 0,
        n.value@.last() == val,
    ensures
        holds_last(n, val),
{
    assert(last_value_at(n, Seq::empty(), val));
}

/// The bytes that the prefixes along the child positions `p` spell, from
/// `n` down.
pub open spec fn spelled<T>(n: Node<T>, p: Seq<int>) -> Seq<u8>
    decreases p.len(),
{
    if p.len() > 0 && 0 <= p[0] < n.children@.len() {
        n.prefix@ + spelled(n.children@[p[0]], p.drop_first())
    } else {
        n.prefix@
    }
}

/// The node whose prefixes, from `n` down, spell `r` holds `val` as its
/// last value.
pub open spec fn holds_route<T>(n: Node<T>, val: T, r: Seq<u8>) -> bool {
    exists|p: Seq<int>| #[trigger] last_value_at(n, p, val) && spelled(n, p) == r
}

/// A route placed in the subtree of child `k` is placed below `n` behind
/// its prefix.
pub proof fn lemma_holds_route_child<T>(n: Node<T>, k: int, val: T, r: Seq<u8>)
    requires
        0 <= k < n.children@.len(),
        holds_route(n.children@[k], val, r),
    ensures
        holds_route(n, val, n.prefix@ + r),
{
    let p = choose|p: Seq<int>| #[trigger] last_value_at(n.children@[k], p, val) && spelled(n.children@[k], p) == r;
    let q = seq![k] + p;
    assert(q.drop_first() =~= p);
    assert(last_value_at(n, q, val));
    assert(spelled(n, q) == n.prefix@ + r);
}

/// A node that holds `val` last holds it for its own prefix.
pub proof fn lemma_holds_route_here<T>(n: Node<T>, val: T)
    requires
        n.value@.len() > 0,
        n.value@.last() == val,
    ensures
        holds_route(n, val, n.prefix@),
{
    assert(last_value_at(n, Seq::empty(), val));
}

/// What the prefixes down to the node where `insert_child` places a route
/// spell, for a node with the prefix `old`: the rest `prefix` after `old`
/// where the rest starts with a wildcard, which then goes below; the rest
/// alone otherwise, which takes the node's place.
pub open spec fn child_route(old: Seq<u8>, prefix: Seq<u8>) -> Seq<u8> {
    match crate::router::tree::spec_find_wildcard(prefix).0 {
        Some((_, wi)) => if wi == 0 {
            old + prefix
        } else {
            prefix
        },
        None => prefix,
    }
}

/// The walk starts at a node of a well-formed tree that is no catch-all
/// node, and enters a param node only through a route that its prefix
/// matches.
pub open spec fn walk_ready(s: Shape, prefix: Seq<u8>) -> bool {
    &&& well_formed(s)
    &&& s.node_type != NodeType::CatchAll
    &&& s.node_type == NodeType::Param ==> wildcard_matches(s, prefix)
}

/// The walk from a ready node splits it into a well-formed node of the same
/// type, whose prefix is the part of `prefix` that they share; a param node
/// is not split, and hands on a rest that starts with `/`.
proof fn lemma_ready_split(s: Shape, prefix: Seq<u8>)
    requires
        walk_ready(s, prefix),
        s.priority >= 1,
    ensures
        well_formed(walk_split(s, prefix)),
        node_ok(walk_split(s, prefix)),
        walk_split(s, prefix).node_type == s.node_type,
        walk_split(s, prefix).prefix == prefix.subrange(0, common_len(prefix, s.prefix)),
        s.node_type == NodeType::Param && prefix.len() > common_len(prefix, s.prefix) ==> walk_rest(
            s,
            prefix,
        )[0] == 0x2f,
{
    let i = common_len(prefix, s.prefix);
    lemma_common_len(prefix, s.prefix);
    if s.node_type == NodeType::Param {
        lemma_common_len_unique(prefix, s.prefix, s.prefix.len() as int);
    }
    if i < s.prefix.len() {
        lemma_split_ok(s, i, prefix);
    } else {
        assert(s.prefix =~= prefix.subrange(0, i));
    }
    lemma_wf_node(walk_split(s, prefix));
}

/// Why an insert fails, or that it panics.
pub ghost enum Fail {
    /// Conflict with the route whose bytes are given.
    Conflict(Seq<u8>),
    TooManyParams,
    UnnamedParam,
    InvalidCatchAll,
    /// The insert panics: a priority would overflow, the tree is
    /// malformed, or the conflicting route is not valid UTF-8.
    Panics,
}

/// The outcome of an insert: the tree it leaves (also on failure, as the
/// changes made on the way down stay) and its result.
pub type Outcome = (Shape, Result<(), Fail>);

/// The largest priority that can still be incremented.
pub open spec fn bumpable(p: int) -> bool {
    p < u32::MAX
}

/// `s` with its priority incremented.
pub open spec fn bump(s: Shape) -> Shape {
    Shape { priority: s.priority + 1, ..s }
}

/// `s` with child `i` replaced by `c`.
pub open spec fn with_child(s: Shape, i: int, c: Shape) -> Shape {
    Shape { children: s.children.update(i, c), ..s }
}

/// `s` with one more value.
pub open spec fn with_value(s: Shape) -> Shape {
    Shape { values: s.values + 1, ..s }
}

/// Length of the longest common prefix of `a` and `b`.
pub open spec fn common_len(a: Seq<u8>, b: Seq<u8>) -> int
    decreases a.len(),
{
    if a.len() == 0 || b.len() == 0 || a[0] != b[0] {
        0
    } else {
        1 + common_len(a.drop_first(), b.drop_first())
    }
}

/// Index of the first `c` in `s`.
pub open spec fn first_index(s: Seq<u8>, c: u8) -> Option<int> {
    crate::text::find_byte_from(s, c, 0)
}

/// Adds a child, keeping a wildcard child at the end; gives the child's
/// position.
pub open spec fn spec_add_child(s: Shape, child: Shape) -> (Shape, int) {
    let len = s.children.len() as int;
    if s.wild_child && len > 0 {
        (Shape { children: s.children.insert(len - 1, child), ..s }, len - 1)
    } else {
        (Shape { children: s.children.push(child), ..s }, len)
    }
}

/// Where a child of priority `prio` at `pos` moves: in front of the run of
/// children before it whose priority is lower.
pub open spec fn bubble(cs: Seq<Shape>, pos: int, prio: int) -> int
    decreases pos,
{
    if pos > 0 && cs[pos - 1].priority < prio {
        bubble(cs, pos - 1, prio)
    } else {
        pos
    }
}

/// `s` with the item at `pos` moved to `to`, which is not after it.
pub open spec fn move_to<A>(s: Seq<A>, pos: int, to: int) -> Seq<A> {
    s.subrange(0, to) + seq![s[pos]] + s.subrange(to, pos) + s.subrange(pos + 1, s.len() as int)
}

/// Increments the priority of child `pos` and moves it in front of the
/// children of lower priority, its index byte with it; gives its new
/// position, or `None` where that panics.
pub open spec fn spec_update_child_priority(s: Shape, pos: int) -> Option<(Shape, int)> {
    if !(0 <= pos < s.children.len()) || !bumpable(s.children[pos].priority) {
        None
    } else {
        let cs = s.children.update(pos, bump(s.children[pos]));
        let to = bubble(cs, pos, cs[pos].priority);
        if to != pos && pos >= s.indices.len() {
            None
        } else {
            Some(
                (
                    Shape {
                        children: move_to(cs, pos, to),
                        indices: if to != pos {
                            move_to(s.indices, pos, to)
                        } else {
                            s.indices
                        },
                        ..s
                    },
                    to,
                ),
            )
        }
    }
}

/// The prefixes along the chain of first children below `s`.
pub open spec fn first_chain(s: Shape) -> Seq<u8>
    decreases s,
{
    if s.children.len() == 0 {
        Seq::empty()
    } else {
        s.children[0].prefix + first_chain(s.children[0])
    }
}

/// The route that `route` conflicts with, when the walk stopped at the
/// wildcard `current` with `prefix` left: the part of `route` walked so far,
/// the wildcard's prefix where it does not already end with it, and the
/// prefixes down the chain of first children.
pub open spec fn conflict_route(route: Seq<u8>, prefix: Seq<u8>, current: Shape) -> Seq<u8> {
    let walked = route.subrange(0, route.len() - prefix.len());
    let with_current = if seq_ends_with(walked, current.prefix) {
        walked
    } else {
        walked + current.prefix
    };
    with_current + first_chain(current)
}

/// The conflict error, which panics where the route is not valid UTF-8.
pub open spec fn conflict_fail(route: Seq<u8>, prefix: Seq<u8>, current: Shape) -> Fail {
    let r = conflict_route(route, prefix, current);
    if vstd::utf8::valid_utf8(r) {
        Fail::Conflict(r)
    } else {
        Fail::Panics
    }
}

/// A parameter node for the wildcard `w`.
pub open spec fn param_shape(w: Seq<u8>) -> Shape {
    Shape { node_type: NodeType::Param, prefix: w, ..empty_shape() }
}

/// The catch-all leaf for `prefix`, holding the inserted value.
pub open spec fn catch_all_shape(prefix: Seq<u8>) -> Shape {
    Shape { prefix, node_type: NodeType::CatchAll, values: 1, priority: 1, ..empty_shape() }
}

/// Inserting the rest `prefix` of `route` below `s`, where no child of `s`
/// shares a first byte with it: wildcards become param and catch-all
/// nodes, and the value goes into the last node.
pub open spec fn spec_insert_child(s: Shape, prefix: Seq<u8>, route: Seq<u8>) -> Outcome
    decreases prefix.len(),
{
    let (w, valid) = crate::router::tree::spec_find_wildcard(prefix);
    proof {
        crate::router::tree::lemma_find_wildcard(prefix);
    }
    match w {
        None => (Shape { prefix, ..with_value(s) }, Ok(())),
        Some((wildcard, wi)) => if !valid {
            (s, Err(Fail::TooManyParams))
        } else if wildcard.len() < 2 {
            (s, Err(Fail::UnnamedParam))
        } else if wildcard[0] == 0x3a {
            let s1 = if wi > 0 {
                Shape { prefix: prefix.subrange(0, wi), ..s }
            } else {
                s
            };
            let p1 = prefix.subrange(wi, prefix.len() as int);
            let (s2, ci) = spec_add_child(s1, param_shape(wildcard));
            let s3 = Shape { wild_child: true, ..s2 };
            let c = bump(s3.children[ci]);
            if wildcard.len() < p1.len() {
                let p2 = p1.subrange(wildcard.len() as int, p1.len() as int);
                let (c2, ci2) = spec_add_child(c, Shape { priority: 1, ..empty_shape() });
                let (g, r) = spec_insert_child(c2.children[ci2], p2, route);
                (with_child(s3, ci, with_child(c2, ci2, g)), r)
            } else {
                (with_child(s3, ci, with_value(c)), Ok(()))
            }
        } else if wi + wildcard.len() != prefix.len() {
            (s, Err(Fail::InvalidCatchAll))
        } else if wi >= 1 && prefix[wi - 1] != 0x2f {
            (s, Err(Fail::InvalidCatchAll))
        } else if prefix == route && route[0] != 0x2f {
            (s, Err(Fail::InvalidCatchAll))
        } else {
            let s1 = if wi > 0 {
                Shape { prefix: prefix.subrange(0, wi), ..s }
            } else {
                s
            };
            let p1 = prefix.subrange(wi, prefix.len() as int);
            let (s2, _ci) = spec_add_child(s1, catch_all_shape(p1));
            (Shape { wild_child: true, ..s2 }, Ok(()))
        },
    }
}

/// The height of a shape: 0 for a leaf.
pub open spec fn height(s: Shape) -> nat
    decreases s,
{
    if s.children.len() == 0 {
        0
    } else {
        1 + max_height(s, s.children.len() as int)
    }
}

/// The greatest height among the first `k` children of `s`.
pub open spec fn max_height(s: Shape, k: int) -> nat
    decreases s, k,
{
    if k <= 0 || k > s.children.len() {
        0
    } else {
        let h = height(s.children[k - 1]);
        let r = max_height(s, k - 1);
        if h > r {
            h
        } else {
            r
        }
    }
}

/// Shapes with the same children have the same height.
pub proof fn lemma_height_children(a: Shape, b: Shape)
    requires
        a.children == b.children,
    ensures
        height(a) == height(b),
{
    lemma_max_height_eq(a, b, a.children.len() as int);
}

pub proof fn lemma_max_height_eq(a: Shape, b: Shape, k: int)
    requires
        a.children == b.children,
    ensures
        max_height(a, k) == max_height(b, k),
    decreases k,
{
    if k > 0 {
        lemma_max_height_eq(a, b, k - 1);
    }
}

pub proof fn lemma_max_height(s: Shape, k: int, i: int)
    requires
        0 <= i < k <= s.children.len(),
    ensures
        height(s.children[i]) <= max_height(s, k),
    decreases k,
{
    if i < k - 1 {
        lemma_max_height(s, k - 1, i);
    }
}

/// A child is lower than its parent.
pub proof fn lemma_child_height(s: Shape, i: int)
    requires
        0 <= i < s.children.len(),
    ensures
        height(s.children[i]) < height(s),
{
    lemma_max_height(s, s.children.len() as int, i);
}

/// Inserting `route` into the tree rooted at `root`: an empty tree takes
/// the route below its root, which becomes the root node; otherwise the route
/// is walked down from the root.
pub open spec fn spec_insert(root: Shape, route: Seq<u8>) -> Outcome {
    if !bumpable(root.priority) {
        (root, Err(Fail::Panics))
    } else {
        let n1 = bump(root);
        if n1.prefix.len() == 0 && n1.children.len() == 0 {
            let (n2, r) = spec_insert_child(n1, route, route);
            match r {
                Ok(()) => (Shape { node_type: NodeType::Root, ..n2 }, Ok(())),
                Err(e) => (n2, Err(e)),
            }
        } else {
            spec_walk(n1, route, route)
        }
    }
}

/// `cur` split after its first `i` prefix bytes: a new child takes the
/// rest of the prefix, the children, the wildcard flag and a copy of the
/// values; `cur` keeps its values and takes the first `i` bytes of `prefix`.
pub open spec fn split(cur: Shape, i: int, prefix: Seq<u8>) -> Shape {
    let child = Shape {
        prefix: cur.prefix.subrange(i, cur.prefix.len() as int),
        wild_child: cur.wild_child,
        indices: cur.indices,
        values: cur.values,
        priority: cur.priority - 1,
        children: cur.children,
        ..empty_shape()
    };
    Shape {
        children: seq![child],
        indices: cur.prefix.subrange(i, i + 1),
        prefix: prefix.subrange(0, i),
        wild_child: false,
        ..cur
    }
}

/// The wildcard child `w` accepts the rest `p` of the route: `p` starts
/// with its prefix, and the name does not go on past it.
pub open spec fn wildcard_matches(w: Shape, p: Seq<u8>) -> bool {
    &&& p.len() >= w.prefix.len()
    &&& w.prefix == p.subrange(0, w.prefix.len() as int)
    &&& w.node_type != NodeType::CatchAll
    &&& (w.prefix.len() >= p.len() || p[w.prefix.len() as int] == 0x2f)
}

/// 1 for a param node, which the walk may leave for a split child of the
/// same height.
pub open spec fn param_rank(s: Shape) -> int {
    if s.node_type == NodeType::Param {
        1
    } else {
        0
    }
}

/// `cur` after the walk split it where `prefix` leaves its prefix.
pub open spec fn walk_split(cur: Shape, prefix: Seq<u8>) -> Shape {
    let i = common_len(prefix, cur.prefix);
    if i < cur.prefix.len() {
        split(cur, i, prefix)
    } else {
        cur
    }
}

/// What is left of `prefix` past the prefix it shares with `cur`.
pub open spec fn walk_rest(cur: Shape, prefix: Seq<u8>) -> Seq<u8> {
    prefix.subrange(common_len(prefix, cur.prefix), prefix.len() as int)
}

/// The walk goes on into the single child of a param node: the rest starts
/// with `/`.
pub open spec fn into_param_child(cur1: Shape, p: Seq<u8>) -> bool {
    cur1.node_type == NodeType::Param && p[0] == 0x2f && cur1.children.len() == 1
}

/// Walking down from `cur`, whose priority was already incremented, with
/// the rest `prefix` of `route` still to place.
#[verifier::opaque]
pub open spec fn spec_walk(cur: Shape, prefix: Seq<u8>, route: Seq<u8>) -> Outcome
    decreases prefix.len(), height(cur), param_rank(cur),
{
    let i = common_len(prefix, cur.prefix);
    proof {
        lemma_common_len(prefix, cur.prefix);
    }
    let cur1 = if i < cur.prefix.len() {
        split(cur, i, prefix)
    } else {
        cur
    };
    if prefix.len() > i {
        let p = prefix.subrange(i, prefix.len() as int);
        let idxc = p[0];
        if cur1.node_type == NodeType::Param && idxc == 0x2f && cur1.children.len() == 1 {
            let c = cur1.children[0];
            if !bumpable(c.priority) {
                (cur1, Err(Fail::Panics))
            } else {
                proof {
                    lemma_height_children(c, bump(c));
                    if i == 0 && i < cur.prefix.len() {
                        lemma_height_children(c, cur);
                    } else if i == 0 {
                        lemma_child_height(cur, 0);
                    }
                }
                let (c2, r) = spec_walk(bump(c), p, route);
                (with_child(cur1, 0, c2), r)
            }
        } else {
            match first_index(cur1.indices, idxc) {
                Some(k) => match spec_update_child_priority(cur1, k) {
                    None => (cur1, Err(Fail::Panics)),
                    Some((cur2, k2)) => {
                        proof {
                            lemma_update_child_priority(cur1, k);
                            if i == 0 && i < cur.prefix.len() {
                                crate::text::lemma_find_byte_from(cur1.indices, idxc, 0);
                                crate::text::lemma_find_byte_from(cur1.indices, idxc, 1);
                            } else if i == 0 {
                                lemma_child_height(cur, k);
                                lemma_height_children(cur.children[k], bump(cur.children[k]));
                            }
                        }
                        let (c2, r) = spec_walk(cur2.children[k2], p, route);
                        (with_child(cur2, k2, c2), r)
                    },
                },
                None => if idxc != 0x3a && idxc != 0x2a && cur1.node_type != NodeType::CatchAll {
                    let cur2 = Shape { indices: cur1.indices.push(idxc), ..cur1 };
                    let (cur3, ci) = spec_add_child(cur2, empty_shape());
                    match spec_update_child_priority(cur3, ci) {
                        None => (cur3, Err(Fail::Panics)),
                        Some((cur4, ci2)) => {
                            let (c2, r) = spec_insert_child(cur4.children[ci2], p, route);
                            (with_child(cur4, ci2, c2), r)
                        },
                    }
                } else if cur1.wild_child {
                    if cur1.children.len() == 0 || !bumpable(
                        cur1.children[cur1.children.len() - 1].priority,
                    ) {
                        (cur1, Err(Fail::Panics))
                    } else {
                        let last = cur1.children.len() - 1;
                        let w = bump(cur1.children[last]);
                        if wildcard_matches(w, p) {
                            proof {
                                if i == 0 {
                                    lemma_child_height(cur, last);
                                    lemma_height_children(cur.children[last], w);
                                }
                            }
                            let (w2, r) = spec_walk(w, p, route);
                            (with_child(cur1, last, w2), r)
                        } else {
                            (with_child(cur1, last, w), Err(conflict_fail(route, p, w)))
                        }
                    }
                } else {
                    spec_insert_child(cur1, p, route)
                },
            }
        }
    } else {
        (with_value(cur1), Ok(()))
    }
}

/// The walk ends at the node where the route ends, and the value goes
/// there.
pub proof fn lemma_walk_end(cur: Shape, prefix: Seq<u8>, route: Seq<u8>)
    requires
        prefix.len() <= common_len(prefix, cur.prefix),
    ensures
        spec_walk(cur, prefix, route) == (with_value(walk_split(cur, prefix)), Ok::<(), Fail>(())),
{
    reveal(spec_walk);
}

/// A param node hands the walk on to its single child.
pub proof fn lemma_walk_param(cur: Shape, prefix: Seq<u8>, route: Seq<u8>)
    requires
        prefix.len() > common_len(prefix, cur.prefix),
        into_param_child(walk_split(cur, prefix), walk_rest(cur, prefix)),
    ensures
        ({
            let cur1 = walk_split(cur, prefix);
            let c = cur1.children[0];
            spec_walk(cur, prefix, route) == if !bumpable(c.priority) {
                (cur1, Err::<(), Fail>(Fail::Panics))
            } else {
                let o = spec_walk(bump(c), walk_rest(cur, prefix), route);
                (with_child(cur1, 0, o.0), o.1)
            }
        }),
{
    reveal(spec_walk);
}

/// The walk goes on into the static child indexed by the next byte.
pub proof fn lemma_walk_index(cur: Shape, prefix: Seq<u8>, route: Seq<u8>, k: int)
    requires
        prefix.len() > common_len(prefix, cur.prefix),
        !into_param_child(walk_split(cur, prefix), walk_rest(cur, prefix)),
        first_index(walk_split(cur, prefix).indices, walk_rest(cur, prefix)[0]) == Some(k),
    ensures
        ({
            let cur1 = walk_split(cur, prefix);
            spec_walk(cur, prefix, route) == match spec_update_child_priority(cur1, k) {
                None => (cur1, Err::<(), Fail>(Fail::Panics)),
                Some((cur2, k2)) => {
                    let o = spec_walk(cur2.children[k2], walk_rest(cur, prefix), route);
                    (with_child(cur2, k2, o.0), o.1)
                },
            }
        }),
{
    reveal(spec_walk);
}

/// Where no static child is indexed by the next byte, the route goes into
/// a new static child, on into the wildcard child that it matches, or below
/// `cur` itself.
pub proof fn lemma_walk_other(cur: Shape, prefix: Seq<u8>, route: Seq<u8>)
    requires
        prefix.len() > common_len(prefix, cur.prefix),
        !into_param_child(walk_split(cur, prefix), walk_rest(cur, prefix)),
        first_index(walk_split(cur, prefix).indices, walk_rest(cur, prefix)[0]) is None,
    ensures
        ({
            let cur1 = walk_split(cur, prefix);
            let p = walk_rest(cur, prefix);
            let idxc = p[0];
            spec_walk(cur, prefix, route) == if idxc != 0x3a && idxc != 0x2a && cur1.node_type
                != NodeType::CatchAll {
                let (cur3, ci) = spec_add_child(
                    Shape { indices: cur1.indices.push(idxc), ..cur1 },
                    empty_shape(),
                );
                match spec_update_child_priority(cur3, ci) {
                    None => (cur3, Err(Fail::Panics)),
                    Some((cur4, ci2)) => {
                        let o = spec_insert_child(cur4.children[ci2], p, route);
                        (with_child(cur4, ci2, o.0), o.1)
                    },
                }
            } else if cur1.wild_child {
                if cur1.children.len() == 0 || !bumpable(
                    cur1.children[cur1.children.len() - 1].priority,
                ) {
                    (cur1, Err(Fail::Panics))
                } else {
                    let last = cur1.children.len() - 1;
                    let w = bump(cur1.children[last]);
                    if wildcard_matches(w, p) {
                        let o = spec_walk(w, p, route);
                        (with_child(cur1, last, o.0), o.1)
                    } else {
                        (with_child(cur1, last, w), Err(conflict_fail(route, p, w)))
                    }
                }
            } else {
                spec_insert_child(cur1, p, route)
            }
        }),
{
    reveal(spec_walk);
}

/// The common prefix is a prefix of both, and ends where they differ.
pub proof fn lemma_common_len(a: Seq<u8>, b: Seq<u8>)
    ensures
        0 <= common_len(a, b) <= a.len(),
        common_len(a, b) <= b.len(),
        forall|k: int| 0 <= k < common_len(a, b) ==> a[k] == b[k],
        common_len(a, b) < a.len() && common_len(a, b) < b.len() ==> a[common_len(a, b)]
            != b[common_len(a, b)],
    decreases a.len(),
{
    if a.len() > 0 && b.len() > 0 && a[0] == b[0] {
        lemma_common_len(a.drop_first(), b.drop_first());
        let n = common_len(a, b);
        assert forall|k: int| 0 <= k < n implies a[k] == b[k] by {
            if k > 0 {
                assert(a.drop_first()[k - 1] == b.drop_first()[k - 1]);
            }
        }
    }
}

/// The length of the common prefix is the only length that both sequences
/// agree up to and where they then differ or one ends.
pub proof fn lemma_common_len_unique(a: Seq<u8>, b: Seq<u8>, j: int)
    requires
        0 <= j <= a.len(),
        j <= b.len(),
        forall|k: int| 0 <= k < j ==> a[k] == b[k],
        j == a.len() || j == b.len() || a[j] != b[j],
    ensures
        j == common_len(a, b),
    decreases a.len(),
{
    if j > 0 {
        assert(a[0] == b[0]);
        assert forall|k: int| 0 <= k < j - 1 implies a.drop_first()[k] == b.drop_first()[k] by {
            assert(a[k + 1] == b[k + 1]);
        }
        if j < a.len() && j < b.len() {
            assert(a.drop_first()[j - 1] != b.drop_first()[j - 1]);
        }
        lemma_common_len_unique(a.drop_first(), b.drop_first(), j - 1);
    }
}

/// `first_index` finds the first position holding the byte.
pub proof fn lemma_first_index(s: Seq<u8>, c: u8, k: int)
    requires
        0 <= k <= s.len(),
        forall|j: int| 0 <= j < k ==> s[j] != c,
    ensures
        k < s.len() && s[k] == c ==> first_index(s, c) == Some(k),
        k == s.len() ==> first_index(s, c) is None,
{
    crate::text::lemma_find_byte_from(s, c, 0);
}

/// The child moved by `spec_update_child_priority` is the child it was
/// given, with its priority incremented.
pub proof fn lemma_update_child_priority(s: Shape, pos: int)
    requires
        spec_update_child_priority(s, pos) is Some,
    ensures
        ({
            let (s2, to) = spec_update_child_priority(s, pos)->0;
            &&& 0 <= to <= pos
            &&& s2.children.len() == s.children.len()
            &&& s2.children[to] == bump(s.children[pos])
        }),
{
    let cs = s.children.update(pos, bump(s.children[pos]));
    lemma_bubble(cs, pos, cs[pos].priority);
}

pub proof fn lemma_bubble(cs: Seq<Shape>, pos: int, prio: int)
    requires
        0 <= pos < cs.len(),
    ensures
        0 <= bubble(cs, pos, prio) <= pos,
        forall|k: int| bubble(cs, pos, prio) <= k < pos ==> cs[k].priority < prio,
        bubble(cs, pos, prio) > 0 ==> cs[bubble(cs, pos, prio) - 1].priority >= prio,
    decreases pos,
{
    if pos > 0 && cs[pos - 1].priority < prio {
        lemma_bubble(cs, pos - 1, prio);
    }
}

/// What an [`InsertError`] reports, as a [`Fail`].
pub open spec fn fail_of(e: InsertError) -> Fail {
    match e {
        InsertError::Conflict { with } => Fail::Conflict(encode_utf8(with@)),
        InsertError::TooManyParams => Fail::TooManyParams,
        InsertError::UnnamedParam => Fail::UnnamedParam,
        InsertError::InvalidCatchAll => Fail::InvalidCatchAll,
    }
}

/// A node whose priority went up by one has the shape with the priority
/// bumped.
proof fn lemma_shape_bump<T>(a: Node<T>, b: Node<T>)
    requires
        b.priority == a.priority + 1,
        b.wild_child == a.wild_child,
        b.indices == a.indices,
        b.node_type == a.node_type,
        b.value == a.value,
        b.prefix == a.prefix,
        b.children == a.children,
    ensures
        shape(b) == bump(shape(a)),
{
    assert(shape(b).children =~= shape(a).children);
}

/// A node whose children changed at `i` alone has the shape with that
/// child's shape replaced.
proof fn lemma_shape_with_child<T>(a: Node<T>, b: Node<T>, i: int)
    requires
        0 <= i < a.children@.len(),
        b.children@ == a.children@.update(i, b.children@[i]),
        b.priority == a.priority,
        b.wild_child == a.wild_child,
        b.indices == a.indices,
        b.node_type == a.node_type,
        b.value == a.value,
        b.prefix == a.prefix,
    ensures
        shape(b) == with_child(shape(a), i, shape(b.children@[i])),
{
    assert(shape(b).children =~= shape(a).children.update(i, shape(b.children@[i])));
}

/// A node without children whose other fields are given has the shape
/// they make.
proof fn lemma_shape_leaf<T>(n: Node<T>)
    requires
        n.children@.len() == 0,
    ensures
        shape(n) == (Shape {
            priority: n.priority as int,
            wild_child: n.wild_child,
            indices: n.indices@,
            node_type: n.node_type,
            values: n.value@.len(),
            prefix: n.prefix@,
            children: Seq::empty(),
        }),
{
    assert(shape(n).children =~= Seq::empty());
}

/// The first position of `c` in `s`.
fn index_of(s: &[u8], c: u8) -> (r: Option<usize>)
    ensures
        match r {
            Some(k) => first_index(s@, c) == Some(k as int),
            None => first_index(s@, c) is None,
        },
{
    let mut k: usize = 0;
    while k < s.len()
        invariant
            k <= s@.len(),
            forall|j: int| 0 <= j < k ==> s@[j] != c,
        decreases s@.len() - k,
    {
        if s[k] == c {
            proof {
                lemma_first_index(s@, c, k as int);
            }
            return Some(k);
        }
        k += 1;
    }
    proof {
        lemma_first_index(s@, c, k as int);
    }
    None
}


impl<T: Clone> Node<T> {
    /// Adds a child node, keeping a wildcard child at the end; returns the
    /// position of the new child.
    fn add_child(&mut self, child: Node<T>) -> (r: usize)
        ensures
            shape(*final(self)) == spec_add_child(shape(*old(self)), shape(child)).0,
            r as int == spec_add_child(shape(*old(self)), shape(child)).1,
            r < final(self).children@.len(),
            final(self).children@[r as int] == child,
    {
        let len = self.children.len();
        let ghost old_shape = shape(*self);
        let ghost cs = self.children@;
        if self.wild_child && len > 0 {
            self.children.insert(len - 1, child);
            proof {
                assert(shape(*self).children =~= old_shape.children.insert(len - 1, shape(child)));
            }
            len - 1
        } else {
            self.children.push(child);
            proof {
                assert(shape(*self).children =~= old_shape.children.push(shape(child)));
            }
            len
        }
    }

    /// Inserts a route into the tree under `val`. The route's bytes are
    /// walked down from this node, splitting a node's prefix where the route
    /// leaves it; a wildcard must match the one already in place. On success
    /// the node where the route ends holds `val` as its last value; in a
    /// well-formed tree whose root is neither a param nor a catch-all node,
    /// that is the node whose prefixes, from the root down, spell the route.
    pub fn insert(&mut self, route: String, val: T) -> (r: Result<(), InsertError>)
        requires
            !(spec_insert(shape(*old(self)), crate::text::string_bytes(&route)).1 matches Err(
                Fail::Panics,
            )),
        ensures
            shape(*final(self)) == spec_insert(shape(*old(self)), crate::text::string_bytes(&route)).0,
            match r {
                Ok(()) => spec_insert(shape(*old(self)), crate::text::string_bytes(&route)).1 == Ok::<
                    (),
                    Fail,
                >(()),
                Err(e) => spec_insert(shape(*old(self)), crate::text::string_bytes(&route)).1 == Err::<
                    (),
                    Fail,
                >(fail_of(e)),
            },
            r is Ok ==> holds_last(*final(self), val),
            r is Ok && well_formed(shape(*old(self))) && old(self).node_type != NodeType::Param
                && old(self).node_type != NodeType::CatchAll ==> holds_route(
                *final(self),
                val,
                crate::text::string_bytes(&route),
            ),
    {
        let rs = crate::text::as_str_bytes(&route);
        let rb = rs.as_bytes();
        let ghost s = shape(*self);
        self.priority = self.priority + 1;
        assert(shape(*self).children =~= s.children);
        assert(shape(*self) == bump(s));
        if self.prefix.len() == 0 && self.children.len() == 0 {
            let r = self.insert_child(rb, rb, val);
            match r {
                Ok(()) => {
                    let ghost s2 = shape(*self);
                    let ghost n2 = *self;
                    self.node_type = NodeType::Root;
                    assert(shape(*self).children =~= s2.children);
                    proof {
                        let p = choose|p: Seq<int>| #[trigger] last_value_at(n2, p, val);
                        if p.len() > 0 {
                            assert(self.children@ == n2.children@);
                        }
                        assert(last_value_at(*self, p, val));
                        assert(child_route(Seq::<u8>::empty(), rb@) =~= rb@);
                        let q = choose|q: Seq<int>| #[trigger] last_value_at(n2, q, val) && spelled(n2, q) == rb@;
                        if q.len() > 0 {
                            assert(self.children@ == n2.children@);
                        }
                        assert(last_value_at(*self, q, val) && spelled(*self, q) == rb@);
                    }
                    Ok(())
                },
                Err(e) => Err(e),
            }
        } else {
            proof {
                if well_formed(s) && s.node_type != NodeType::Param && s.node_type != NodeType::CatchAll {
                    lemma_bump_ok(s);
                    assert(walk_ready(shape(*self), rb@));
                }
            }
            Self::insert_walk(self, rb, rb, val)
        }
    }

    /// Walks down from `current`, whose priority was already incremented,
    /// with the rest `prefix` of `route` still to place.
    #[verifier::rlimit(100)]
    #[verifier::spinoff_prover]
    fn insert_walk(current: &mut Node<T>, prefix: &[u8], route: &[u8], val: T) -> (r: Result<(), InsertError>)
        requires
            prefix@.len() <= route@.len(),
            old(current).priority >= 1,
            !(spec_walk(shape(*old(current)), prefix@, route@).1 matches Err(Fail::Panics)),
        ensures
            shape(*final(current)) == spec_walk(shape(*old(current)), prefix@, route@).0,
            match r {
                Ok(()) => spec_walk(shape(*old(current)), prefix@, route@).1 == Ok::<(), Fail>(()),
                Err(e) => spec_walk(shape(*old(current)), prefix@, route@).1 == Err::<(), Fail>(
                    fail_of(e),
                ),
            },
            r is Ok ==> holds_last(*final(current), val),
            r is Ok && walk_ready(shape(*old(current)), prefix@) ==> holds_route(*final(current), val, prefix@),
        decreases prefix@.len(), height(shape(*old(current))), param_rank(shape(*old(current))),
    {
        let ghost s = shape(*current);
        let plen = prefix.len();
        let clen = current.prefix.len();
        let max = if plen < clen {
            plen
        } else {
            clen
        };
        let mut i: usize = 0;
        while i < max && prefix[i] == current.prefix[i]
            invariant
                i <= max,
                max <= prefix@.len(),
                max <= current.prefix@.len(),
                max == prefix@.len() || max == current.prefix@.len(),
                forall|k: int| 0 <= k < i ==> prefix@[k] == current.prefix@[k],
            decreases max - i,
        {
            i += 1;
        }
        proof {
            lemma_common_len_unique(prefix@, current.prefix@, i as int);
            lemma_common_len(prefix@, current.prefix@);
        }
        if i < current.prefix.len() {
            let mut child: Node<T> = Node {
                prefix: vstd::slice::slice_to_vec(
                    vstd::slice::slice_subrange(current.prefix.as_slice(), i, current.prefix.len()),
                ),
                wild_child: current.wild_child,
                indices: vstd::slice::slice_to_vec(current.indices.as_slice()),
                value: current.value.clone(),
                priority: current.priority - 1,
                node_type: NodeType::Static,
                children: Vec::new(),
            };
            std::mem::swap(&mut current.children, &mut child.children);
            assert(shape(child).children =~= s.children);
            let mut cs: Vec<Node<T>> = Vec::new();
            cs.push(child);
            current.children = cs;
            current.indices = vstd::slice::slice_to_vec(
                vstd::slice::slice_subrange(current.prefix.as_slice(), i, i + 1),
            );
            current.prefix = vstd::slice::slice_to_vec(vstd::slice::slice_subrange(prefix, 0, i));
            current.wild_child = false;
            assert(shape(*current).children =~= split(s, i as int, prefix@).children);
            assert(shape(*current) == split(s, i as int, prefix@));
        }
        let ghost s1 = shape(*current);
        assert(s1 == walk_split(s, prefix@));
        let ghost ready = walk_ready(s, prefix@);
        proof {
            if ready {
                lemma_ready_split(s, prefix@);
                assert(current.prefix@ == prefix@.subrange(0, i as int));
            }
        }
        if prefix.len() > i {
            let p = vstd::slice::slice_subrange(prefix, i, prefix.len());
            assert(p@ == walk_rest(s, prefix@));
            proof {
                if ready {
                    assert(current.prefix@ + p@ =~= prefix@);
                }
            }
            let idxc = p[0];
            if current.node_type == NodeType::Param && idxc == 0x2f && current.children.len() == 1 {
                proof {
                    lemma_walk_param(s, prefix@, route@);
                }
                let ghost n1 = *current;
                let ghost c0 = current.children@[0];
                assert(s1.children[0] == shape(c0));
                current.children[0].priority = current.children[0].priority + 1;
                proof {
                    lemma_shape_bump(c0, current.children@[0]);
                    lemma_shape_with_child(n1, *current, 0);
                    lemma_height_children(shape(c0), bump(shape(c0)));
                    if i == 0 && i < s.prefix.len() {
                        lemma_height_children(shape(c0), s);
                    } else if i == 0 {
                        lemma_child_height(s, 0);
                    }
                }
                let ghost n2 = *current;
                proof {
                    if ready {
                        assert(well_formed(s1.children[0]));
                        lemma_bump_ok(s1.children[0]);
                        assert(s1.children[0].node_type == NodeType::Static);
                        assert(walk_ready(shape(n2.children@[0]), p@));
                    }
                }
                let r = Self::insert_walk(&mut current.children[0], p, route, val);
                proof {
                    if r is Ok {
                        lemma_holds_last_child(*current, 0, val);
                        if ready {
                            lemma_holds_route_child(*current, 0, val, p@);
                        }
                    }
                    lemma_shape_with_child(n2, *current, 0);
                    assert(shape(*current).children =~= with_child(
                        s1,
                        0,
                        shape(current.children@[0]),
                    ).children);
                }
                return r;
            }
            assert(!into_param_child(s1, p@));
            match index_of(current.indices.as_slice(), idxc) {
                Some(k) => {
                    proof {
                        lemma_walk_index(s, prefix@, route@, k as int);
                        lemma_update_child_priority(s1, k as int);
                        if i == 0 && i < s.prefix.len() {
                            crate::text::lemma_find_byte_from(s1.indices, idxc, 0);
                            crate::text::lemma_find_byte_from(s1.indices, idxc, 1);
                        } else if i == 0 {
                            lemma_child_height(s, k as int);
                            lemma_height_children(s.children[k as int], bump(s.children[k as int]));
                        }
                    }
                    assert(s1.children[k as int] == shape(current.children@[k as int]));
                    let k2 = current.update_child_priority(k);
                    let ghost n2 = *current;
                    assert(shape(n2).children[k2 as int] == shape(n2.children@[k2 as int]));
                    assert(n2.children@[k2 as int].priority >= 1);
                    proof {
                        if ready {
                            crate::text::lemma_find_byte_from(s1.indices, idxc, 0);
                            lemma_update_ok(s1, k as int);
                            assert(s1.children[k as int].node_type == NodeType::Static);
                            assert(well_formed(shape(n2).children[k2 as int]));
                            assert(walk_ready(shape(n2.children@[k2 as int]), p@));
                        }
                    }
                    let r = Self::insert_walk(&mut current.children[k2], p, route, val);
                    proof {
                        if r is Ok {
                            lemma_holds_last_child(*current, k2 as int, val);
                            if ready {
                                lemma_holds_route_child(*current, k2 as int, val, p@);
                            }
                        }
                        lemma_shape_with_child(n2, *current, k2 as int);
                    }
                    return r;
                },
                None => {},
            }
            proof {
                lemma_walk_other(s, prefix@, route@);
            }
            if idxc != 0x3a && idxc != 0x2a && current.node_type != NodeType::CatchAll {
                current.indices.push(idxc);
                assert(shape(*current).children =~= s1.children);
                let child: Node<T> = Node {
                    priority: 0,
                    wild_child: false,
                    indices: Vec::new(),
                    node_type: NodeType::Static,
                    value: Vec::new(),
                    prefix: Vec::new(),
                    children: Vec::new(),
                };
                proof {
                    lemma_shape_leaf(child);
                }
                let ghost s2 = shape(*current);
                let ci = current.add_child(child);
                proof {
                    lemma_update_child_priority(shape(*current), ci as int);
                }
                let ci2 = current.update_child_priority(ci);
                let ghost n4 = *current;
                let ghost old_child = n4.children@[ci2 as int];
                let r = current.children[ci2].insert_child(p, route, val);
                proof {
                    if r is Ok && ready {
                        assert(shape(old_child).prefix.len() == 0);
                        assert(child_route(old_child.prefix@, p@) =~= p@);
                        lemma_holds_route_child(*current, ci2 as int, val, p@);
                    }
                    if r is Ok {
                        lemma_holds_last_child(*current, ci2 as int, val);
                    }
                    lemma_shape_with_child(n4, *current, ci2 as int);
                }
                return r;
            } else if current.wild_child {
                let last = current.children.len() - 1;
                let ghost n1 = *current;
                let ghost c0 = current.children@[last as int];
                assert(s1.children[last as int] == shape(c0));
                current.children[last].priority = current.children[last].priority + 1;
                proof {
                    lemma_shape_bump(c0, current.children@[last as int]);
                    lemma_shape_with_child(n1, *current, last as int);
                }
                let ghost w = bump(s1.children[last as int]);
                let wp = current.children[last].prefix.as_slice();
                if p.len() >= wp.len() && crate::text::bytes_eq(
                    wp,
                    vstd::slice::slice_subrange(p, 0, wp.len()),
                ) && current.children[last].node_type != NodeType::CatchAll && (wp.len() >= p.len()
                    || p[wp.len()] == 0x2f) {
                    assert(wildcard_matches(w, p@));
                    proof {
                        if i == 0 {
                            lemma_child_height(s, last as int);
                            lemma_height_children(s.children[last as int], w);
                        }
                    }
                    let ghost n2 = *current;
                    proof {
                        if ready {
                            assert(well_formed(s1.children[last as int]));
                            lemma_bump_ok(s1.children[last as int]);
                            assert(walk_ready(shape(n2.children@[last as int]), p@));
                        }
                    }
                    let r = Self::insert_walk(&mut current.children[last], p, route, val);
                    proof {
                        if r is Ok {
                            lemma_holds_last_child(*current, last as int, val);
                            if ready {
                                lemma_holds_route_child(*current, last as int, val, p@);
                            }
                        }
                        lemma_shape_with_child(n2, *current, last as int);
                        assert(shape(*current).children =~= with_child(
                            s1,
                            last as int,
                            shape(current.children@[last as int]),
                        ).children);
                    }
                    return r;
                }
                assert(!wildcard_matches(w, p@));
                assert(shape(*current).children =~= with_child(s1, last as int, w).children);
                return Err(InsertError::conflict(route, p, &current.children[last]));
            }
            let ghost n5 = *current;
            let r = current.insert_child(p, route, val);
            proof {
                if r is Ok && ready {
                    crate::router::tree::lemma_find_wildcard(p@);
                    assert(crate::router::tree::is_wild(p@[0]));
                    assert(child_route(n5.prefix@, p@) == n5.prefix@ + p@);
                }
            }
            return r;
        }
        proof {
            lemma_walk_end(s, prefix@, route@);
        }
        current.value.push(val);
        proof {
            lemma_holds_last_here(*current, val);
            lemma_holds_route_here(*current, val);
            if ready {
                assert(prefix@.subrange(0, i as int) =~= prefix@);
            }
        }
        assert(shape(*current).children =~= s1.children);
        Ok(())
    }

    /// Places the rest `prefix` of `route` below this node, which has no
    /// child that shares a first byte with it: each wildcard becomes a param
    /// or catch-all node, and the value goes into the last node.
    #[verifier::rlimit(60)]
    fn insert_child(&mut self, prefix: &[u8], route: &[u8], val: T) -> (r: Result<(), InsertError>)
        ensures
            shape(*final(self)) == spec_insert_child(shape(*old(self)), prefix@, route@).0,
            match r {
                Ok(()) => spec_insert_child(shape(*old(self)), prefix@, route@).1 == Ok::<(), Fail>(()),
                Err(e) => spec_insert_child(shape(*old(self)), prefix@, route@).1 == Err::<(), Fail>(fail_of(e)),
            },
            r is Ok ==> holds_last(*final(self), val),
            r is Ok ==> holds_route(*final(self), val, child_route(old(self).prefix@, prefix@)),
        decreases prefix@.len(),
    {
        let ghost s = shape(*self);
        proof {
            crate::router::tree::lemma_find_wildcard(prefix@);
        }
        let (w, valid) = crate::router::tree::find_wildcard(prefix);
        match w {
            None => {
                self.value.push(val);
                self.prefix = vstd::slice::slice_to_vec(prefix);
                proof {
                    lemma_holds_last_here(*self, val);
                    lemma_holds_route_here(*self, val);
                    assert(child_route(s.prefix, prefix@) == prefix@);
                }
                assert(shape(*self).children =~= s.children);
                assert(shape(*self) == (Shape { prefix: prefix@, ..with_value(s) }));
                Ok(())
            },
            Some((wildcard, wi)) => {
                let plen = prefix.len();
                let ghost sw = crate::router::tree::spec_find_wildcard(prefix@);
                assert(sw.0 matches Some((a, b)) && a == wildcard@ && b == wi);
                assert(wi + wildcard@.len() <= prefix@.len());
                if !valid {
                    return Err(InsertError::TooManyParams);
                }
                if wildcard.len() < 2 {
                    return Err(InsertError::UnnamedParam);
                }
                let mut p = prefix;
                if wildcard[0] == 0x3a {
                    if wi > 0 {
                        self.prefix = vstd::slice::slice_to_vec(vstd::slice::slice_subrange(prefix, 0, wi));
                        p = vstd::slice::slice_subrange(prefix, wi, prefix.len());
                    }
                    assert(shape(*self).children =~= s.children);
                    assert(p@ =~= prefix@.subrange(wi as int, prefix@.len() as int));
                    let ghost s1 = shape(*self);
                    assert(s1 == (if wi > 0 {
                        Shape { prefix: prefix@.subrange(0, wi as int), ..s }
                    } else {
                        s
                    }));
                    let child: Node<T> = Node {
                        priority: 0,
                        wild_child: false,
                        indices: Vec::new(),
                        node_type: NodeType::Param,
                        value: Vec::new(),
                        prefix: vstd::slice::slice_to_vec(wildcard),
                        children: Vec::new(),
                    };
                    proof {
                        lemma_shape_leaf(child);
                    }
                    let ci = self.add_child(child);
                    let ghost s2 = shape(*self);
                    self.wild_child = true;
                    assert(shape(*self).children =~= s2.children);
                    let ghost s3 = shape(*self);
                    let ghost n3 = *self;
                    let ghost c0 = self.children@[ci as int];
                    assert(s3.children[ci as int] == shape(c0));
                    assert(s2.children[ci as int] == param_shape(wildcard@));
                    self.children[ci].priority = self.children[ci].priority + 1;
                    proof {
                        lemma_shape_bump(c0, self.children@[ci as int]);
                        lemma_shape_with_child(n3, *self, ci as int);
                    }
                    let ghost c = bump(s3.children[ci as int]);
                    assert(s3 == (Shape { wild_child: true, ..s2 }));
                    assert(shape(*self) == with_child(s3, ci as int, c));
                    if wildcard.len() < p.len() {
                        let p2 = vstd::slice::slice_subrange(p, wildcard.len(), p.len());
                        let child2: Node<T> = Node {
                            priority: 1,
                            wild_child: false,
                            indices: Vec::new(),
                            node_type: NodeType::Static,
                            value: Vec::new(),
                            prefix: Vec::new(),
                            children: Vec::new(),
                        };
                        proof {
                            lemma_shape_leaf(child2);
                        }
                        let ghost n4 = *self;
                        let ghost m4 = self.children@[ci as int];
                        let ci2 = self.children[ci].add_child(child2);
                        proof {
                            lemma_shape_with_child(n4, *self, ci as int);
                            assert(ci2 < shape(self.children@[ci as int]).children.len());
                        }
                        let ghost n5 = *self;
                        let ghost m5 = self.children@[ci as int];
                        let r = Self::insert_child(&mut self.children[ci].children[ci2], p2, route, val);
                        proof {
                            let c2 = spec_add_child(c, Shape { priority: 1, ..empty_shape() }).0;
                            assert(shape(m4) == c);
                            assert(shape(m5) == c2);
                            assert(p2@ =~= p@.subrange(wildcard@.len() as int, p@.len() as int));
                            lemma_shape_with_child(m5, self.children@[ci as int], ci2 as int);
                            lemma_shape_with_child(n5, *self, ci as int);
                            assert(shape(*self).children =~= with_child(
                                s3,
                                ci as int,
                                with_child(c2, ci2 as int, shape(self.children@[ci as int].children@[ci2 as int])),
                            ).children);
                            if r is Ok {
                                lemma_holds_last_child(self.children@[ci as int], ci2 as int, val);
                                lemma_holds_last_child(*self, ci as int, val);
                                assert(child_route(Seq::<u8>::empty(), p2@) =~= p2@);
                                let pc = self.children@[ci as int];
                                assert(pc.prefix@ == shape(*self).children[ci as int].prefix);
                                assert(pc.prefix@ == wildcard@);
                                lemma_holds_route_child(pc, ci2 as int, val, p2@);
                                lemma_holds_route_child(*self, ci as int, val, wildcard@ + p2@);
                                assert(p@ =~= wildcard@ + p2@);
                                if wi > 0 {
                                    assert(self.prefix@ + (wildcard@ + p2@) =~= prefix@);
                                } else {
                                    assert(p@ == prefix@);
                                }
                                assert(self.prefix@ + (wildcard@ + p2@) == child_route(s.prefix, prefix@));
                            }
                        }
                        return r;
                    }
                    let ghost n6 = *self;
                    self.children[ci].value.push(val);
                    proof {
                        let a = n6.children@[ci as int];
                        let b = self.children@[ci as int];
                        assert(shape(b).children =~= shape(a).children);
                        assert(shape(b) == with_value(shape(a)));
                        lemma_shape_with_child(n6, *self, ci as int);
                        assert(shape(a) == c);
                        assert(with_child(s3, ci as int, with_value(c)).children =~= shape(*self).children);
                        lemma_holds_last_here(b, val);
                        lemma_holds_last_child(*self, ci as int, val);
                        lemma_holds_route_here(b, val);
                        assert(b.prefix@ == wildcard@);
                        lemma_holds_route_child(*self, ci as int, val, wildcard@);
                        if wi > 0 {
                            assert(self.prefix@ + wildcard@ =~= prefix@);
                        } else {
                            assert(p@ == prefix@);
                        }
                        assert(self.prefix@ + wildcard@ == child_route(s.prefix, prefix@));
                    }
                    return Ok(());
                }
                if wi + wildcard.len() != prefix.len() {
                    return Err(InsertError::InvalidCatchAll);
                }
                if wi >= 1 && prefix[wi - 1] != 0x2f {
                    return Err(InsertError::InvalidCatchAll);
                }
                if crate::text::bytes_eq(prefix, route) && route[0] != 0x2f {
                    return Err(InsertError::InvalidCatchAll);
                }
                if wi > 0 {
                    self.prefix = vstd::slice::slice_to_vec(vstd::slice::slice_subrange(prefix, 0, wi));
                    p = vstd::slice::slice_subrange(prefix, wi, prefix.len());
                }
                assert(shape(*self).children =~= s.children);
                assert(p@ =~= prefix@.subrange(wi as int, prefix@.len() as int));
                assert(shape(*self) == (if wi > 0 {
                    Shape { prefix: prefix@.subrange(0, wi as int), ..s }
                } else {
                    s
                }));
                let mut value: Vec<T> = Vec::new();
                value.push(val);
                let child: Node<T> = Node {
                    priority: 1,
                    wild_child: false,
                    indices: Vec::new(),
                    node_type: NodeType::CatchAll,
                    value,
                    prefix: vstd::slice::slice_to_vec(p),
                    children: Vec::new(),
                };
                proof {
                    lemma_shape_leaf(child);
                }
                let ghost leaf = child;
                proof {
                    assert(leaf.value@ =~= seq![val]);
                    lemma_holds_last_here(leaf, val);
                }
                let ci = self.add_child(child);
                let ghost s2 = shape(*self);
                self.wild_child = true;
                assert(shape(*self).children =~= s2.children);
                assert(shape(*self) == (Shape { wild_child: true, ..s2 }));
                proof {
                    lemma_holds_last_child(*self, ci as int, val);
                    lemma_holds_route_here(leaf, val);
                    lemma_holds_route_child(*self, ci as int, val, p@);
                    if wi > 0 {
                        assert(self.prefix@ + p@ =~= prefix@);
                    } else {
                        assert(p@ == prefix@);
                    }
                    assert(self.prefix@ + p@ == child_route(s.prefix, prefix@));
                }
                Ok(())
            },
        }
    }

    /// Increments the priority of the child at `pos` and moves it in front of
    /// the children of lower priority, its index byte with it; returns its new
    /// position.
    fn update_child_priority(&mut self, pos: usize) -> (r: usize)
        requires
            spec_update_child_priority(shape(*old(self)), pos as int) is Some,
        ensures
            spec_update_child_priority(shape(*old(self)), pos as int) == Some(
                (shape(*final(self)), r as int),
            ),
    {
        let ghost s0 = shape(*self);
        let ghost c0 = self.children@[pos as int];
        assert(s0.children[pos as int] == shape(c0));
        self.children[pos].priority = self.children[pos].priority + 1;
        let ghost cs = s0.children.update(pos as int, bump(s0.children[pos as int]));
        proof {
            lemma_shape_bump(c0, self.children@[pos as int]);
        }
        assert(shape(*self).children =~= cs);
        let prio = self.children[pos].priority;
        let mut new_pos = pos;
        while new_pos > 0 && self.children[new_pos - 1].priority < prio
            invariant
                new_pos <= pos < self.children@.len(),
                shape(*self).children == cs,
                prio == cs[pos as int].priority,
                bubble(cs, pos as int, prio as int) == bubble(cs, new_pos as int, prio as int),
            decreases new_pos,
        {
            assert(cs[new_pos - 1] == shape(self.children@[new_pos - 1]));
            new_pos -= 1;
        }
        proof {
            if new_pos > 0 {
                assert(cs[new_pos - 1] == shape(self.children@[new_pos - 1]));
            }
        }
        let ghost to = bubble(cs, pos as int, prio as int);
        assert(to == new_pos);
        if new_pos != pos {
            let c = self.children.remove(pos);
            self.children.insert(new_pos, c);
            let b = self.indices.remove(pos);
            self.indices.insert(new_pos, b);
            assert(shape(*self).children =~= move_to(cs, pos as int, new_pos as int));
            assert(self.indices@ =~= move_to(s0.indices, pos as int, new_pos as int));
        }
        assert(shape(*self).children =~= if new_pos != pos {
            move_to(cs, pos as int, new_pos as int)
        } else {
            cs
        });
        proof {
            if new_pos == pos {
                assert(move_to(cs, pos as int, new_pos as int) =~= cs);
            }
        }
        new_pos
    }
}

impl InsertError {
    /// The conflict error for `route`, whose rest `prefix` met the wildcard
    /// child `current` that it does not fit.
    pub(crate) fn conflict<T>(route: &[u8], prefix: &[u8], current: &Node<T>) -> (r: InsertError)
        requires
            prefix@.len() <= route@.len(),
            valid_utf8(conflict_route(route@, prefix@, shape(*current))),
        ensures
            fail_of(r) == Fail::Conflict(conflict_route(route@, prefix@, shape(*current))),
    {
        let n = route.len() - prefix.len();
        let mut out: Vec<u8> = Vec::new();
        extend(&mut out, vstd::slice::slice_subrange(route, 0, n));
        if !bytes_end_with(out.as_slice(), current.prefix.as_slice()) {
            extend(&mut out, current.prefix.as_slice());
        }
        let ghost base = out@;
        let mut node = current;
        while node.children.len() > 0
            invariant
                base + first_chain(shape(*current)) == out@ + first_chain(shape(*node)),
            decreases height(shape(*node)),
        {
            proof {
                lemma_child_height(shape(*node), 0);
            }
            let ghost before = out@;
            let ghost parent = shape(*node);
            node = &node.children[0];
            extend(&mut out, node.prefix.as_slice());
            assert(before + first_chain(parent) =~= out@ + first_chain(shape(*node)));
        }
        assert(out@ == conflict_route(route@, prefix@, shape(*current)));
        match string_from_utf8(out.as_slice()) {
            Some(with) => {
                proof {
                    decode_utf8_encode_utf8(out@);
                }
                InsertError::Conflict { with }
            },
            None => vstd::pervasive::unreached(),
        }
    }
}

/// Every insert that does not panic counts in the root's priority, also an
/// insert that is refused: the root's priority goes up by one.
pub proof fn law_insert_counts(root: Shape, route: Seq<u8>)
    requires
        !(spec_insert(root, route).1 matches Err(Fail::Panics)),
    ensures
        spec_insert(root, route).0.priority == root.priority + 1,
{
    let n1 = bump(root);
    if !(n1.prefix.len() == 0 && n1.children.len() == 0) {
        lemma_walk_keeps_priority(n1, route, route);
    }
}

/// The walk leaves the priority of the node it starts from as it is.
pub proof fn lemma_walk_keeps_priority(cur: Shape, prefix: Seq<u8>, route: Seq<u8>)
    ensures
        spec_walk(cur, prefix, route).0.priority == cur.priority,
{
    reveal(spec_walk);
}

/// The layout of a single node: a wildcard child is the last child and is
/// a param or catch-all node; every other child of a node that is no param
/// node has an index byte of its own, and those children are static nodes
/// whose prefixes, where not empty, start with their index bytes, in order
/// of priority, highest first; a param node has at most one child, a static
/// one, and no wildcard child. No priority is negative.
pub open spec fn node_ok(s: Shape) -> bool {
    &&& s.priority >= 0
    &&& forall|i: int, j: int|
        0 <= i < j < s.indices.len() ==> (#[trigger] s.children[i]).priority >= (#[trigger] s.children[j]).priority
    &&& (s.wild_child ==> s.children.len() > 0)
    &&& s.indices.len() <= s.children.len()
    &&& forall|i: int, j: int| 0 <= i < j < s.indices.len() ==> s.indices[i] != s.indices[j]
    &&& (s.node_type != NodeType::Param ==> s.children.len() == s.indices.len() + if s.wild_child {
        1int
    } else {
        0int
    })
    &&& (s.wild_child ==> s.children.last().node_type == NodeType::Param
        || s.children.last().node_type == NodeType::CatchAll)
    &&& forall|i: int| 0 <= i < s.indices.len() ==> (#[trigger] s.children[i]).node_type == NodeType::Static
        && (s.children[i].prefix.len() == 0 || s.children[i].prefix[0] == s.indices[i])
    &&& (s.node_type == NodeType::Param ==> !s.wild_child && s.children.len() <= 1 && forall|i: int|
        0 <= i < s.children.len() ==> (#[trigger] s.children[i]).node_type == NodeType::Static)
}

/// Every node of the tree is laid out as [`node_ok`] says.
pub open spec fn well_formed(s: Shape) -> bool
    decreases s,
{
    &&& node_ok(s)
    &&& forall|i: int| 0 <= i < s.children.len() ==> well_formed(#[trigger] s.children[i])
}

/// A well-formed tree's root is laid out as [`node_ok`] says.
proof fn lemma_wf_node(s: Shape)
    requires
        well_formed(s),
    ensures
        node_ok(s),
        s.priority >= 0,
{
}

/// The tree of `Node::default()` is well formed.
pub proof fn lemma_empty_ok()
    ensures
        well_formed(empty_shape()),
{
}

proof fn lemma_with_child_ok(s: Shape, i: int, c: Shape)
    requires
        well_formed(s),
        well_formed(c),
        0 <= i < s.children.len(),
        c.node_type == s.children[i].node_type,
        c.priority >= 0,
        i < s.indices.len() ==> forall|j: int|
            0 <= j < s.indices.len() ==> (j < i ==> s.children[j].priority >= c.priority) && (i < j
                ==> c.priority >= s.children[j].priority),
        i < s.indices.len() ==> c.prefix.len() == 0 || c.prefix[0] == s.indices[i],
    ensures
        well_formed(with_child(s, i, c)),
{
    let t = with_child(s, i, c);
    assert forall|k: int| 0 <= k < t.children.len() implies well_formed(#[trigger] t.children[k])
        && t.children[k].node_type == s.children[k].node_type by {
        if k != i {
            assert(t.children[k] == s.children[k]);
        }
    }
    assert forall|a: int, b: int| 0 <= a < b < t.indices.len() implies (#[trigger] t.children[a]).priority
        >= (#[trigger] t.children[b]).priority by {
        if a != i && b != i {
            assert(s.children[a].priority >= s.children[b].priority);
        }
    }
    assert(node_ok(t));
}

proof fn lemma_add_child(s: Shape, c: Shape)
    requires
        forall|i: int| 0 <= i < s.children.len() ==> well_formed(#[trigger] s.children[i]),
        well_formed(c),
    ensures
        ({
            let (t, ci) = spec_add_child(s, c);
            let len = s.children.len() as int;
            &&& forall|k: int| 0 <= k < t.children.len() ==> well_formed(#[trigger] t.children[k])
            &&& t.children.len() == len + 1
            &&& t.children[ci] == c
            &&& t.wild_child == s.wild_child && t.indices == s.indices && t.node_type == s.node_type
            &&& s.wild_child && len > 0 ==> ci == len - 1 && t.children[len] == s.children[len - 1]
                && forall|k: int| 0 <= k < len - 1 ==> t.children[k] == s.children[k]
            &&& !(s.wild_child && len > 0) ==> ci == len && forall|k: int|
                0 <= k < len ==> t.children[k] == s.children[k]
        }),
{
    let t = spec_add_child(s, c).0;
    let len = s.children.len() as int;
    assert forall|k: int| 0 <= k < t.children.len() implies well_formed(#[trigger] t.children[k]) by {
        if s.wild_child && len > 0 {
            if k < len - 1 {
                assert(t.children[k] == s.children[k]);
            } else if k > len - 1 {
                assert(t.children[k] == s.children[k - 1]);
            }
        } else if k < len {
            assert(t.children[k] == s.children[k]);
        }
    }
}

/// A new static child for the index byte `c` keeps a node well formed,
/// where a param node takes it only while it has no child.
proof fn lemma_new_static_ok(s: Shape, c: u8)
    requires
        well_formed(s),
        s.node_type == NodeType::Param ==> s.children.len() == 0,
        forall|k: int| 0 <= k < s.indices.len() ==> s.indices[k] != c,
    ensures
        ({
            let (t, ci) = spec_add_child(Shape { indices: s.indices.push(c), ..s }, empty_shape());
            &&& well_formed(t)
            &&& 0 <= ci < t.children.len()
            &&& t.children[ci] == empty_shape()
            &&& ci < t.indices.len()
            &&& t.indices[ci] == c
        }),
{
    let s2 = Shape { indices: s.indices.push(c), ..s };
    lemma_add_child(s2, empty_shape());
    let (t, ci) = spec_add_child(s2, empty_shape());
    let len = s.children.len() as int;
    assert forall|k: int| 0 <= k < t.indices.len() implies (#[trigger] t.children[k]).node_type
        == NodeType::Static by {
        if k < s.indices.len() {
            assert(s.children[k].node_type == NodeType::Static);
        }
    }
    assert forall|a: int, b: int| 0 <= a < b < t.indices.len() implies (#[trigger] t.children[a]).priority
        >= (#[trigger] t.children[b]).priority by {
        assert(well_formed(s.children[a]));
        if b < s.indices.len() {
            assert(s.children[a].priority >= s.children[b].priority);
        }
    }
    if s.node_type == NodeType::Param {
        assert forall|k: int| 0 <= k < t.children.len() implies (#[trigger] t.children[k]).node_type
            == NodeType::Static by {
        }
    }
    assert(node_ok(t));
}

proof fn lemma_bump_ok(s: Shape)
    requires
        well_formed(s),
    ensures
        well_formed(bump(s)),
        bump(s).node_type == s.node_type,
{
    assert(bump(s).children == s.children);
}

/// `move_to` takes the item at `pos` to `to` and shifts those in between.
proof fn lemma_move_to<A>(s: Seq<A>, pos: int, to: int)
    requires
        0 <= to <= pos < s.len(),
    ensures
        move_to(s, pos, to).len() == s.len(),
        forall|k: int| 0 <= k < to ==> move_to(s, pos, to)[k] == s[k],
        move_to(s, pos, to)[to] == s[pos],
        forall|k: int| to < k <= pos ==> move_to(s, pos, to)[k] == s[k - 1],
        forall|k: int| pos < k < s.len() ==> move_to(s, pos, to)[k] == s[k],
{
}

/// Where the item at `k` comes from after `move_to(_, pos, to)`.
spec fn moved_from(k: int, pos: int, to: int) -> int {
    if k < to {
        k
    } else if k == to {
        pos
    } else if k <= pos {
        k - 1
    } else {
        k
    }
}

/// Moving a child in front of those of lower priority keeps the indexed
/// children in order of priority.
proof fn lemma_update_sorted(s: Shape, pos: int)
    requires
        node_ok(s),
        spec_update_child_priority(s, pos) is Some,
    ensures
        spec_update_child_priority(s, pos) matches Some((t, _)) && forall|a: int, b: int|
            0 <= a < b < t.indices.len() ==> (#[trigger] t.children[a]).priority
                >= (#[trigger] t.children[b]).priority,
{
    let cs = s.children.update(pos, bump(s.children[pos]));
    let to = bubble(cs, pos, cs[pos].priority);
    lemma_bubble(cs, pos, cs[pos].priority);
    lemma_move_to(cs, pos, to);
    let (t, _) = spec_update_child_priority(s, pos)->0;
    let m = move_to(cs, pos, to);
    let ind = s.indices.len() as int;
    assert(t.children == m);
    assert(t.indices.len() == ind);
    let prio = cs[pos].priority;
    assert forall|a: int, b: int| 0 <= a < b < t.indices.len() implies (#[trigger] t.children[a]).priority
        >= (#[trigger] t.children[b]).priority by {
        let sa = moved_from(a, pos, to);
        let sb = moved_from(b, pos, to);
        assert(m[a] == cs[sa] && m[b] == cs[sb]);
        if pos >= ind {
            assert(to == pos);
            assert(cs[a] == s.children[a] && cs[b] == s.children[b]);
            assert(s.children[a].priority >= s.children[b].priority);
        } else if a == to {
            if b <= pos {
                assert(cs[b - 1].priority < prio);
            } else {
                assert(s.children[pos].priority >= s.children[b].priority);
            }
        } else if b == to {
            assert(cs[to - 1].priority >= prio);
            assert(cs[to - 1] == s.children[to - 1]);
            if a < to - 1 {
                assert(s.children[a].priority >= s.children[to - 1].priority);
            }
        } else {
            assert(sa < sb && sa != pos && sb != pos);
            assert(s.children[sa].priority >= s.children[sb].priority);
        }
    }
}

proof fn lemma_update_ok(s: Shape, pos: int)
    requires
        well_formed(s),
        spec_update_child_priority(s, pos) is Some,
    ensures
        spec_update_child_priority(s, pos) matches Some((t, to)) && well_formed(t) && t.node_type
            == s.node_type && (pos < s.indices.len() ==> t.indices[to] == s.indices[pos]),
{
    let cs = s.children.update(pos, bump(s.children[pos]));
    lemma_bump_ok(s.children[pos]);
    let to = bubble(cs, pos, cs[pos].priority);
    lemma_bubble(cs, pos, cs[pos].priority);
    lemma_move_to(cs, pos, to);
    let (t, _) = spec_update_child_priority(s, pos)->0;
    let m = move_to(cs, pos, to);
    let ix = s.indices;
    let ind = ix.len() as int;
    assert(t.children == m);
    if to != pos {
        lemma_move_to(ix, pos, to);
        assert(t.indices == move_to(ix, pos, to));
    }
    assert forall|k: int| 0 <= k < t.children.len() implies {
        let j = moved_from(k, pos, to);
        &&& 0 <= j < s.children.len()
        &&& t.children[k].node_type == s.children[j].node_type
        &&& t.children[k].prefix == s.children[j].prefix
        &&& well_formed(#[trigger] t.children[k])
        &&& (k < ind ==> j < ind && t.indices[k] == ix[j])
    } by {
        let j = moved_from(k, pos, to);
        assert(m[k] == cs[j]);
        assert(cs[j].node_type == s.children[j].node_type && cs[j].prefix == s.children[j].prefix);
    }
    assert forall|a: int, b: int| 0 <= a < b < t.indices.len() implies t.indices[a] != t.indices[b] by {
        let sa = moved_from(a, pos, to);
        let sb = moved_from(b, pos, to);
        assert(t.indices[a] == ix[sa] && t.indices[b] == ix[sb]);
        if sa < sb {
            assert(ix[sa] != ix[sb]);
        } else {
            assert(ix[sb] != ix[sa]);
        }
    }
    assert forall|k: int| 0 <= k < t.indices.len() implies (#[trigger] t.children[k]).node_type
        == NodeType::Static && (t.children[k].prefix.len() == 0 || t.children[k].prefix[0] == t.indices[k]) by {
        let j = moved_from(k, pos, to);
        assert(s.children[j].node_type == NodeType::Static);
    }
    lemma_update_sorted(s, pos);
    if s.wild_child {
        let l = s.children.len() - 1;
        assert(moved_from(l, pos, to) == l);
        assert(t.children.last() == t.children[l]);
    }
    if s.node_type == NodeType::Param {
        assert forall|k: int| 0 <= k < t.children.len() implies (#[trigger] t.children[k]).node_type
            == NodeType::Static by {
            let j = moved_from(k, pos, to);
            assert(s.children[j].node_type == NodeType::Static);
        }
    }
    assert(node_ok(t));
}

proof fn lemma_split_ok(cur: Shape, i: int, prefix: Seq<u8>)
    requires
        well_formed(cur),
        cur.node_type != NodeType::Param,
        cur.priority >= 1,
        0 <= i < cur.prefix.len(),
    ensures
        well_formed(split(cur, i, prefix)),
        split(cur, i, prefix).node_type == cur.node_type,
{
    let t = split(cur, i, prefix);
    let child = t.children[0];
    assert(child.children == cur.children);
    assert(node_ok(child));
    assert(well_formed(child));
    assert(node_ok(t));
}

/// Placing a route below a node keeps its prefix, empties it, or gives it
/// one that starts with the first byte of the route's rest, which is then
/// no wildcard byte.
proof fn lemma_insert_child_prefix(s: Shape, prefix: Seq<u8>, route: Seq<u8>)
    ensures
        ({
            let t = spec_insert_child(s, prefix, route).0;
            ||| t.prefix == s.prefix
            ||| t.prefix.len() == 0
            ||| (prefix.len() > 0 && t.prefix[0] == prefix[0]
                && !crate::router::tree::is_wild(prefix[0]))
        }),
        prefix.len() > 0 && crate::router::tree::is_wild(prefix[0]) ==> spec_insert_child(
            s,
            prefix,
            route,
        ).0.prefix == s.prefix,
{
    crate::router::tree::lemma_find_wildcard(prefix);
}

/// The walk keeps the first byte of the prefix of a node that is no
/// catch-all node, or leaves the prefix empty.
proof fn lemma_walk_first(cur: Shape, prefix: Seq<u8>, route: Seq<u8>)
    requires
        cur.node_type != NodeType::CatchAll,
    ensures
        ({
            let t = spec_walk(cur, prefix, route).0;
            t.prefix.len() == 0 || (cur.prefix.len() > 0 && t.prefix[0] == cur.prefix[0])
        }),
        cur.prefix.len() > 0 && prefix.len() > 0 && prefix[0] == cur.prefix[0] ==> spec_walk(
            cur,
            prefix,
            route,
        ).0.prefix.len() > 0,
{
    reveal(spec_walk);
    let i = common_len(prefix, cur.prefix);
    lemma_common_len(prefix, cur.prefix);
    if prefix.len() > i {
        lemma_insert_child_prefix(walk_split(cur, prefix), walk_rest(cur, prefix), route);
    }
}

/// Placing a route below a node keeps the node's type.
proof fn lemma_insert_child_type(s: Shape, prefix: Seq<u8>, route: Seq<u8>)
    ensures
        spec_insert_child(s, prefix, route).0.node_type == s.node_type,
        spec_insert_child(s, prefix, route).0.priority == s.priority,
{
}

/// The walk keeps the type of the node it starts from.
proof fn lemma_walk_type(cur: Shape, prefix: Seq<u8>, route: Seq<u8>)
    ensures
        spec_walk(cur, prefix, route).0.node_type == cur.node_type,
        spec_walk(cur, prefix, route).0.priority == cur.priority,
{
    reveal(spec_walk);
    let i = common_len(prefix, cur.prefix);
    if prefix.len() > i {
        lemma_insert_child_type(walk_split(cur, prefix), walk_rest(cur, prefix), route);
    }
}

/// Placing a route below a node that is no param node and has no wildcard
/// child keeps the tree well formed.
proof fn lemma_insert_child_ok(s: Shape, prefix: Seq<u8>, route: Seq<u8>)
    requires
        well_formed(s),
        !s.wild_child,
        s.node_type != NodeType::Param,
    ensures
        well_formed(spec_insert_child(s, prefix, route).0),
    decreases prefix.len(),
{
    crate::router::tree::lemma_find_wildcard(prefix);
    let (w, valid) = crate::router::tree::spec_find_wildcard(prefix);
    match w {
        None => {
            assert(spec_insert_child(s, prefix, route).0.children == s.children);
        },
        Some((wildcard, wi)) => {
            if valid && wildcard.len() >= 2 {
                let s1 = if wi > 0 {
                    Shape { prefix: prefix.subrange(0, wi), ..s }
                } else {
                    s
                };
                assert(s1.children == s.children);
                assert(well_formed(s1));
                let p1 = prefix.subrange(wi, prefix.len() as int);
                if wildcard[0] == 0x3a {
                    let ps = param_shape(wildcard);
                    assert(well_formed(ps));
                    lemma_add_child(s1, ps);
                    let (s2, ci) = spec_add_child(s1, ps);
                    let s3 = Shape { wild_child: true, ..s2 };
                    assert(s3.children == s2.children);
                    assert(s3.children.last() == ps);
                    assert(node_ok(s3));
                    assert(well_formed(s3));
                    let c = bump(s3.children[ci]);
                    lemma_bump_ok(s3.children[ci]);
                    if wildcard.len() < p1.len() {
                        let p2 = p1.subrange(wildcard.len() as int, p1.len() as int);
                        let leaf = Shape { priority: 1, ..empty_shape() };
                        assert(well_formed(leaf));
                        lemma_add_child(c, leaf);
                        let (c2, ci2) = spec_add_child(c, leaf);
                        assert(node_ok(c2));
                        assert(well_formed(c2));
                        lemma_insert_child_ok(c2.children[ci2], p2, route);
                        lemma_insert_child_type(c2.children[ci2], p2, route);
                        let (g, r) = spec_insert_child(c2.children[ci2], p2, route);
                        lemma_with_child_ok(c2, ci2, g);
                        lemma_with_child_ok(s3, ci, with_child(c2, ci2, g));
                    } else {
                        assert(with_value(c).children == c.children);
                        assert(node_ok(with_value(c)));
                        lemma_with_child_ok(s3, ci, with_value(c));
                    }
                } else if !(wi + wildcard.len() != prefix.len()) && !(wi >= 1 && prefix[wi - 1]
                    != 0x2f) && !(prefix == route && route[0] != 0x2f) {
                    let ca = catch_all_shape(p1);
                    assert(well_formed(ca));
                    lemma_add_child(s1, ca);
                    let s2 = spec_add_child(s1, ca).0;
                    let s3 = Shape { wild_child: true, ..s2 };
                    assert(s3.children == s2.children);
                    assert(s3.children.last() == ca);
                    assert(node_ok(s3));
                }
            }
        },
    }
}

/// The walk keeps the tree well formed, where it enters a param node only
/// through a route that its prefix matches.
#[verifier::rlimit(100)]
#[verifier::spinoff_prover]
proof fn lemma_walk_ok(cur: Shape, prefix: Seq<u8>, route: Seq<u8>)
    requires
        well_formed(cur),
        cur.priority >= 1,
        cur.node_type == NodeType::Param ==> wildcard_matches(cur, prefix),
    ensures
        well_formed(spec_walk(cur, prefix, route).0),
    decreases prefix.len(), height(cur), param_rank(cur),
{
    let i = common_len(prefix, cur.prefix);
    lemma_common_len(prefix, cur.prefix);
    let cur1 = walk_split(cur, prefix);
    if cur.node_type == NodeType::Param {
        lemma_common_len_unique(prefix, cur.prefix, cur.prefix.len() as int);
        assert(i == cur.prefix.len());
    }
    if i < cur.prefix.len() {
        lemma_split_ok(cur, i, prefix);
    }
    assert(well_formed(cur1));
    if prefix.len() <= i {
        lemma_walk_end(cur, prefix, route);
        assert(with_value(cur1).children == cur1.children);
        assert(node_ok(with_value(cur1)));
    } else {
        let p = walk_rest(cur, prefix);
        let idxc = p[0];
        if cur.node_type == NodeType::Param {
            assert(idxc == 0x2f);
        }
        if into_param_child(cur1, p) {
            lemma_walk_param(cur, prefix, route);
            let c = cur1.children[0];
            if bumpable(c.priority) {
                lemma_bump_ok(c);
                lemma_height_children(c, bump(c));
                if i == 0 && i < cur.prefix.len() {
                    lemma_height_children(c, cur);
                } else if i == 0 {
                    lemma_child_height(cur, 0);
                }
                assert(well_formed(c));
                lemma_wf_node(c);
                lemma_walk_ok(bump(c), p, route);
                lemma_walk_type(bump(c), p, route);
                lemma_walk_first(bump(c), p, route);
                lemma_with_child_ok(cur1, 0, spec_walk(bump(c), p, route).0);
            }
        } else {
            crate::text::lemma_find_byte_from(cur1.indices, idxc, 0);
            match first_index(cur1.indices, idxc) {
                Some(k) => {
                    lemma_walk_index(cur, prefix, route, k);
                    if spec_update_child_priority(cur1, k) is Some {
                        lemma_update_child_priority(cur1, k);
                        lemma_update_ok(cur1, k);
                        let (cur2, k2) = spec_update_child_priority(cur1, k)->0;
                        assert(cur1.children[k].node_type == NodeType::Static);
                        assert(well_formed(cur1.children[k]));
                        if i == 0 && i < cur.prefix.len() {
                            crate::text::lemma_find_byte_from(cur1.indices, idxc, 1);
                        } else if i == 0 {
                            lemma_child_height(cur, k);
                            lemma_height_children(cur.children[k], bump(cur.children[k]));
                        }
                        lemma_walk_ok(cur2.children[k2], p, route);
                        lemma_walk_type(cur2.children[k2], p, route);
                        lemma_walk_first(cur2.children[k2], p, route);
                        lemma_with_child_ok(cur2, k2, spec_walk(cur2.children[k2], p, route).0);
                    }
                },
                None => {
                    lemma_walk_other(cur, prefix, route);
                    if idxc != 0x3a && idxc != 0x2a && cur1.node_type != NodeType::CatchAll {
                        let cur2 = Shape { indices: cur1.indices.push(idxc), ..cur1 };
                        crate::text::lemma_find_byte_from(cur1.indices, idxc, 0);
                        lemma_new_static_ok(cur1, idxc);
                        let (cur3, ci) = spec_add_child(cur2, empty_shape());
                        if spec_update_child_priority(cur3, ci) is Some {
                            lemma_update_child_priority(cur3, ci);
                            lemma_update_ok(cur3, ci);
                            let (cur4, ci2) = spec_update_child_priority(cur3, ci)->0;
                            assert(cur4.children[ci2] == bump(empty_shape()));
                            lemma_insert_child_ok(cur4.children[ci2], p, route);
                            lemma_insert_child_type(cur4.children[ci2], p, route);
                            lemma_insert_child_prefix(cur4.children[ci2], p, route);
                            lemma_with_child_ok(
                                cur4,
                                ci2,
                                spec_insert_child(cur4.children[ci2], p, route).0,
                            );
                        }
                    } else if cur1.wild_child {
                        if cur1.children.len() > 0 && bumpable(
                            cur1.children[cur1.children.len() - 1].priority,
                        ) {
                            let last = cur1.children.len() - 1;
                            let w = bump(cur1.children[last]);
                            lemma_bump_ok(cur1.children[last]);
                            if wildcard_matches(w, p) {
                                if i == 0 {
                                    lemma_child_height(cur, last);
                                    lemma_height_children(cur.children[last], w);
                                }
                                lemma_wf_node(cur1.children[last]);
                                lemma_walk_ok(w, p, route);
                                lemma_walk_type(w, p, route);
                                lemma_with_child_ok(cur1, last, spec_walk(w, p, route).0);
                            } else {
                                lemma_with_child_ok(cur1, last, w);
                            }
                        }
                    } else {
                        lemma_insert_child_ok(cur1, p, route);
                    }
                },
            }
        }
    }
}

/// Child `i` of `s` is `c`, whose tree has its prefixes set: an indexed child
/// has a prefix of its own, a param or catch-all child's prefix starts with
/// its `:` or `*`, and a child of a param node has a prefix that is empty or
/// starts with `/`.
pub open spec fn child_set(s: Shape, i: int, c: Shape) -> bool {
    &&& prefixes_set(c)
    &&& (i < s.indices.len() ==> c.prefix.len() > 0)
    &&& (c.node_type == NodeType::Param || c.node_type == NodeType::CatchAll ==> c.prefix.len() > 0
        && crate::router::tree::is_wild(c.prefix[0]))
    &&& (s.node_type == NodeType::Param ==> c.prefix.len() == 0 || c.prefix[0] == 0x2f)
}

/// Every indexed child in the tree has a prefix of its own, every param or
/// catch-all node's prefix starts with its `:` or `*`, and every child of a
/// param node has a prefix that is empty or starts with `/`.
pub open spec fn prefixes_set(s: Shape) -> bool
    decreases s,
{
    forall|i: int|
        0 <= i < s.children.len() ==> {
            &&& prefixes_set(#[trigger] s.children[i])
            &&& (i < s.indices.len() ==> s.children[i].prefix.len() > 0)
            &&& (s.children[i].node_type == NodeType::Param || s.children[i].node_type
                == NodeType::CatchAll ==> s.children[i].prefix.len() > 0 && crate::router::tree::is_wild(
                s.children[i].prefix[0],
            ))
            &&& (s.node_type == NodeType::Param ==> s.children[i].prefix.len() == 0
                || s.children[i].prefix[0] == 0x2f)
        }
}

/// All children of `s` but the one at `x` are set.
pub open spec fn set_except(s: Shape, x: int) -> bool {
    forall|i: int| 0 <= i < s.children.len() && i != x ==> child_set(s, i, #[trigger] s.children[i])
}

proof fn lemma_set_except(s: Shape)
    ensures
        prefixes_set(s) == set_except(s, -1),
{
    if prefixes_set(s) {
        assert forall|i: int| 0 <= i < s.children.len() && i != -1 implies child_set(s, i, #[trigger] s.children[i]) by {
        }
    }
    if set_except(s, -1) {
        assert forall|i: int| 0 <= i < s.children.len() implies {
            &&& prefixes_set(#[trigger] s.children[i])
            &&& (i < s.indices.len() ==> s.children[i].prefix.len() > 0)
            &&& (s.children[i].node_type == NodeType::Param || s.children[i].node_type
                == NodeType::CatchAll ==> s.children[i].prefix.len() > 0 && crate::router::tree::is_wild(
                s.children[i].prefix[0],
            ))
            &&& (s.node_type == NodeType::Param ==> s.children[i].prefix.len() == 0
                || s.children[i].prefix[0] == 0x2f)
        } by {
            assert(child_set(s, i, s.children[i]));
        }
    }
}

/// Putting a set child in the one place left open sets the whole node.
proof fn lemma_set_with_child(s: Shape, i: int, c: Shape)
    requires
        set_except(s, i),
        0 <= i < s.children.len(),
        child_set(s, i, c),
    ensures
        prefixes_set(with_child(s, i, c)),
{
    let t = with_child(s, i, c);
    assert forall|k: int| 0 <= k < t.children.len() && k != -1 implies child_set(t, k, #[trigger] t.children[k]) by {
        if k != i {
            assert(child_set(s, k, s.children[k]));
        }
    }
    lemma_set_except(t);
}

/// Raising a child's priority and moving it keeps the children set, the
/// child left open moving with it.
proof fn lemma_update_set(s: Shape, pos: int, x: int)
    requires
        set_except(s, x),
        x == -1 || x == pos,
        spec_update_child_priority(s, pos) is Some,
    ensures
        spec_update_child_priority(s, pos) matches Some((t, to)) && set_except(t, if x == pos {
            to
        } else {
            -1
        }),
{
    let cs = s.children.update(pos, bump(s.children[pos]));
    let to = bubble(cs, pos, cs[pos].priority);
    lemma_bubble(cs, pos, cs[pos].priority);
    lemma_move_to(cs, pos, to);
    let (t, _) = spec_update_child_priority(s, pos)->0;
    let m = move_to(cs, pos, to);
    let ix = s.indices;
    assert(t.children == m);
    if to != pos {
        lemma_move_to(ix, pos, to);
        assert(t.indices == move_to(ix, pos, to));
    }
    let x2 = if x == pos {
        to
    } else {
        -1
    };
    assert forall|k: int| 0 <= k < t.children.len() && k != x2 implies child_set(t, k, #[trigger] t.children[k]) by {
        let j = moved_from(k, pos, to);
        assert(m[k] == cs[j]);
        assert(j != x);
        assert(child_set(s, j, s.children[j]));
        assert(cs[j].prefix == s.children[j].prefix && cs[j].children == s.children[j].children
            && cs[j].indices == s.children[j].indices && cs[j].node_type == s.children[j].node_type);
        assert(prefixes_set(cs[j]) == prefixes_set(s.children[j]));
        if k < t.indices.len() {
            assert(j < ix.len());
        }
    }
}

/// A successful placing of a route below a node that is no param node and
/// has no wildcard child keeps the prefixes set; where the rest does not
/// start with a wildcard, the node's prefix is not empty.
proof fn lemma_insert_child_set(s: Shape, prefix: Seq<u8>, route: Seq<u8>)
    requires
        prefixes_set(s),
        !s.wild_child,
        s.node_type != NodeType::Param,
        s.indices.len() <= s.children.len(),
    ensures
        spec_insert_child(s, prefix, route).1 is Ok ==> prefixes_set(spec_insert_child(s, prefix, route).0),
        spec_insert_child(s, prefix, route).1 is Ok && prefix.len() > 0 && !crate::router::tree::is_wild(
            prefix[0],
        ) ==> spec_insert_child(s, prefix, route).0.prefix.len() > 0,
    decreases prefix.len(),
{
    crate::router::tree::lemma_find_wildcard(prefix);
    let (w, valid) = crate::router::tree::spec_find_wildcard(prefix);
    lemma_set_except(s);
    match w {
        None => {
            let t = spec_insert_child(s, prefix, route).0;
            assert(t.children == s.children && t.indices == s.indices && t.node_type == s.node_type);
            assert forall|k: int| 0 <= k < t.children.len() && k != -1 implies child_set(t, k, #[trigger] t.children[k]) by {
                assert(child_set(s, k, s.children[k]));
            }
            lemma_set_except(t);
        },
        Some((wildcard, wi)) => {
            if valid && wildcard.len() >= 2 {
                let s1 = if wi > 0 {
                    Shape { prefix: prefix.subrange(0, wi), ..s }
                } else {
                    s
                };
                let p1 = prefix.subrange(wi, prefix.len() as int);
                let len = s.children.len() as int;
                if wildcard[0] == 0x3a {
                    let ps = param_shape(wildcard);
                    let (s2, ci) = spec_add_child(s1, ps);
                    let s3 = Shape { wild_child: true, ..s2 };
                    assert(ci == len);
                    let c = bump(s3.children[ci]);
                    let fresh = if wildcard.len() < p1.len() {
                        let p2 = p1.subrange(wildcard.len() as int, p1.len() as int);
                        let leaf = Shape { priority: 1, ..empty_shape() };
                        let (c2, ci2) = spec_add_child(c, leaf);
                        assert(ci2 == 0);
                        lemma_insert_child_set(c2.children[ci2], p2, route);
                        lemma_insert_child_prefix(c2.children[ci2], p2, route);
                        let (g, r) = spec_insert_child(c2.children[ci2], p2, route);
                        assert(p2[0] == 0x2f);
                        let c3 = with_child(c2, ci2, g);
                        if r is Ok {
                            assert forall|k: int| 0 <= k < c3.children.len() && k != -1 implies child_set(c3, k, #[trigger] c3.children[k]) by {
                            }
                            lemma_set_except(c3);
                        }
                        c3
                    } else {
                        assert(prefixes_set(with_value(c)));
                        with_value(c)
                    };
                    let t = spec_insert_child(s, prefix, route).0;
                    if spec_insert_child(s, prefix, route).1 is Ok {
                        assert(t == with_child(s3, ci, fresh));
                        assert forall|k: int| 0 <= k < t.children.len() && k != -1 implies child_set(t, k, #[trigger] t.children[k]) by {
                            if k < len {
                                assert(t.children[k] == s.children[k]);
                                assert(child_set(s, k, s.children[k]));
                            }
                        }
                        lemma_set_except(t);
                    }
                } else if !(wi + wildcard.len() != prefix.len()) && !(wi >= 1 && prefix[wi - 1]
                    != 0x2f) && !(prefix == route && route[0] != 0x2f) {
                    let ca = catch_all_shape(p1);
                    assert(prefixes_set(ca));
                    let t = spec_insert_child(s, prefix, route).0;
                    assert forall|k: int| 0 <= k < t.children.len() && k != -1 implies child_set(t, k, #[trigger] t.children[k]) by {
                        if k < len {
                            assert(t.children[k] == s.children[k]);
                            assert(child_set(s, k, s.children[k]));
                        }
                    }
                    lemma_set_except(t);
                }
            }
        },
    }
}

/// Inserting keeps a tree well formed, also where the insert is refused:
/// in every node a wildcard child is the last child and is a param or
/// catch-all node; every other child of a node that is no param node has
/// an index byte of its own, no two alike, and those children are static
/// nodes; a param node has at
/// most one child, a static one, and no wildcard child.
pub proof fn law_insert_keeps_well_formed(root: Shape, route: Seq<u8>)
    requires
        well_formed(root),
        root.node_type != NodeType::Param,
    ensures
        well_formed(spec_insert(root, route).0),
        spec_insert(root, route).0.node_type != NodeType::Param,
        root.node_type != NodeType::CatchAll ==> spec_insert(root, route).0.node_type
            != NodeType::CatchAll,
{
    if bumpable(root.priority) {
        let n1 = bump(root);
        lemma_bump_ok(root);
        if n1.prefix.len() == 0 && n1.children.len() == 0 {
            lemma_insert_child_ok(n1, route, route);
            lemma_insert_child_type(n1, route, route);
            let n2 = spec_insert_child(n1, route, route).0;
            assert(Shape { node_type: NodeType::Root, ..n2 }.children == n2.children);
            assert(node_ok(Shape { node_type: NodeType::Root, ..n2 }));
        } else {
            lemma_walk_ok(n1, route, route);
            lemma_walk_type(n1, route, route);
        }
    }
}

/// A successful walk from a ready node whose prefixes are set keeps them set.
#[verifier::rlimit(100)]
#[verifier::spinoff_prover]
proof fn lemma_walk_set(cur: Shape, prefix: Seq<u8>, route: Seq<u8>)
    requires
        walk_ready(cur, prefix),
        cur.priority >= 1,
        prefixes_set(cur),
    ensures
        spec_walk(cur, prefix, route).1 is Ok ==> prefixes_set(spec_walk(cur, prefix, route).0),
    decreases prefix.len(), height(cur), param_rank(cur),
{
    let i = common_len(prefix, cur.prefix);
    lemma_common_len(prefix, cur.prefix);
    lemma_ready_split(cur, prefix);
    let cur1 = walk_split(cur, prefix);
    lemma_set_except(cur);
    if i < cur.prefix.len() {
        let child = cur1.children[0];
        assert(child.children == cur.children && child.indices == cur.indices);
        assert forall|k: int| 0 <= k < child.children.len() && k != -1 implies child_set(child, k, #[trigger] child.children[k]) by {
            assert(child_set(cur, k, cur.children[k]));
        }
        lemma_set_except(child);
        assert(child_set(cur1, 0, child));
        assert forall|k: int| 0 <= k < cur1.children.len() && k != -1 implies child_set(cur1, k, #[trigger] cur1.children[k]) by {
        }
        lemma_set_except(cur1);
    }
    assert(prefixes_set(cur1));
    lemma_set_except(cur1);
    lemma_wf_node(cur1);
    if prefix.len() <= i {
        lemma_walk_end(cur, prefix, route);
        let t = with_value(cur1);
        assert forall|k: int| 0 <= k < t.children.len() && k != -1 implies child_set(t, k, #[trigger] t.children[k]) by {
            assert(child_set(cur1, k, cur1.children[k]));
        }
        lemma_set_except(t);
    } else {
        let p = walk_rest(cur, prefix);
        let idxc = p[0];
        if cur.node_type == NodeType::Param {
            assert(idxc == 0x2f);
        }
        if into_param_child(cur1, p) {
            lemma_walk_param(cur, prefix, route);
            let c = cur1.children[0];
            if bumpable(c.priority) {
                assert(child_set(cur1, 0, c));
                assert(well_formed(c));
                lemma_wf_node(c);
                lemma_bump_ok(c);
                lemma_height_children(c, bump(c));
                if i == 0 && i < cur.prefix.len() {
                    lemma_height_children(c, cur);
                } else if i == 0 {
                    lemma_child_height(cur, 0);
                }
                assert(prefixes_set(bump(c)) == prefixes_set(c));
                lemma_walk_set(bump(c), p, route);
                lemma_walk_first(bump(c), p, route);
                lemma_walk_type(bump(c), p, route);
                let r = spec_walk(bump(c), p, route).0;
                if 0 < cur1.indices.len() {
                    assert(c.prefix.len() > 0 && c.prefix[0] == 0x2f);
                }
                if spec_walk(bump(c), p, route).1 is Ok {
                    assert(child_set(cur1, 0, r));
                    lemma_set_with_child(cur1, 0, r);
                }
            }
        } else {
            crate::text::lemma_find_byte_from(cur1.indices, idxc, 0);
            match first_index(cur1.indices, idxc) {
                Some(k) => {
                    lemma_walk_index(cur, prefix, route, k);
                    if spec_update_child_priority(cur1, k) is Some {
                        lemma_update_child_priority(cur1, k);
                        lemma_update_ok(cur1, k);
                        lemma_update_set(cur1, k, -1);
                        let (cur2, k2) = spec_update_child_priority(cur1, k)->0;
                        let c = cur1.children[k];
                        assert(c.node_type == NodeType::Static);
                        assert(child_set(cur1, k, c));
                        assert(well_formed(c));
                        lemma_wf_node(c);
                        assert(c.prefix.len() > 0 && c.prefix[0] == idxc);
                        if i == 0 && i < cur.prefix.len() {
                            crate::text::lemma_find_byte_from(cur1.indices, idxc, 1);
                        } else if i == 0 {
                            lemma_child_height(cur, k);
                            lemma_height_children(cur.children[k], bump(cur.children[k]));
                        }
                        assert(cur2.children[k2] == bump(c));
                        assert(prefixes_set(bump(c)) == prefixes_set(c));
                        lemma_walk_set(cur2.children[k2], p, route);
                        lemma_walk_first(cur2.children[k2], p, route);
                        lemma_walk_type(cur2.children[k2], p, route);
                        let r = spec_walk(cur2.children[k2], p, route).0;
                        if spec_walk(cur2.children[k2], p, route).1 is Ok {
                            lemma_set_except(cur2);
                            assert(child_set(cur2, k2, r));
                            lemma_set_with_child(cur2, k2, r);
                        }
                    }
                },
                None => {
                    lemma_walk_other(cur, prefix, route);
                    if idxc != 0x3a && idxc != 0x2a && cur1.node_type != NodeType::CatchAll {
                        let cur2 = Shape { indices: cur1.indices.push(idxc), ..cur1 };
                        lemma_add_child(cur2, empty_shape());
                        let (cur3, ci) = spec_add_child(cur2, empty_shape());
                        let len = cur1.children.len() as int;
                        assert forall|k: int| 0 <= k < cur3.children.len() && k != ci implies child_set(cur3, k, #[trigger] cur3.children[k]) by {
                            if cur1.wild_child && len > 0 {
                                if k < len - 1 {
                                    assert(child_set(cur1, k, cur1.children[k]));
                                } else {
                                    assert(k == len);
                                    assert(child_set(cur1, len - 1, cur1.children[len - 1]));
                                }
                            } else {
                                assert(child_set(cur1, k, cur1.children[k]));
                            }
                        }
                        if spec_update_child_priority(cur3, ci) is Some {
                            lemma_update_child_priority(cur3, ci);
                            lemma_update_set(cur3, ci, ci);
                            let (cur4, ci2) = spec_update_child_priority(cur3, ci)->0;
                            let g0 = cur4.children[ci2];
                            assert(g0 == bump(empty_shape()));
                            assert(prefixes_set(g0));
                            lemma_insert_child_set(g0, p, route);
                            lemma_insert_child_prefix(g0, p, route);
                            let g = spec_insert_child(g0, p, route).0;
                            if spec_insert_child(g0, p, route).1 is Ok {
                                assert(child_set(cur4, ci2, g));
                                lemma_set_with_child(cur4, ci2, g);
                            }
                        }
                    } else if cur1.wild_child {
                        if cur1.children.len() > 0 && bumpable(
                            cur1.children[cur1.children.len() - 1].priority,
                        ) {
                            let last = cur1.children.len() - 1;
                            let w = bump(cur1.children[last]);
                            lemma_bump_ok(cur1.children[last]);
                            assert(child_set(cur1, last, cur1.children[last]));
                            assert(prefixes_set(w) == prefixes_set(cur1.children[last]));
                            if wildcard_matches(w, p) {
                                if i == 0 {
                                    lemma_child_height(cur, last);
                                    lemma_height_children(cur.children[last], w);
                                }
                                lemma_wf_node(cur1.children[last]);
                                lemma_walk_set(w, p, route);
                                lemma_walk_first(w, p, route);
                                lemma_walk_type(w, p, route);
                                let r = spec_walk(w, p, route).0;
                                if spec_walk(w, p, route).1 is Ok {
                                    assert(child_set(cur1, last, r));
                                    lemma_set_with_child(cur1, last, r);
                                }
                            }
                        }
                    } else {
                        lemma_insert_child_set(cur1, p, route);
                    }
                },
            }
        }
    }
}

/// Inserts that succeed keep every indexed child's prefix non-empty: in a
/// tree built from `Node::default()` by successful inserts, together with
/// [`law_insert_keeps_well_formed`], each indexed child's prefix starts with
/// its index byte.
pub proof fn law_ok_insert_sets_prefixes(root: Shape, route: Seq<u8>)
    requires
        well_formed(root),
        prefixes_set(root),
        root.node_type != NodeType::Param,
        root.node_type != NodeType::CatchAll,
        spec_insert(root, route).1 is Ok,
    ensures
        prefixes_set(spec_insert(root, route).0),
{
    let n1 = bump(root);
    lemma_bump_ok(root);
    assert(prefixes_set(n1) == prefixes_set(root));
    if n1.prefix.len() == 0 && n1.children.len() == 0 {
        lemma_wf_node(n1);
        lemma_insert_child_set(n1, route, route);
        let n2 = spec_insert_child(n1, route, route).0;
        let t = Shape { node_type: NodeType::Root, ..n2 };
        lemma_set_except(n2);
        assert forall|k: int| 0 <= k < t.children.len() && k != -1 implies child_set(t, k, #[trigger] t.children[k]) by {
            assert(child_set(n2, k, n2.children[k]));
        }
        lemma_set_except(t);
    } else {
        assert(walk_ready(n1, route));
        lemma_walk_set(n1, route, route);
    }
}

/// The tree of `Node::default()` has its prefixes set.
pub proof fn lemma_empty_set()
    ensures
        prefixes_set(empty_shape()),
{
}

} // verus!
