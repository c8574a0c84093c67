//! Matching a path against a tree of [`ConstNode`]s.
//!
//! The walk descends from the root: static children are tried first, by the
//! byte that follows a node's prefix, then the wildcard child. Where a node
//! has both, the node is remembered so that the walk can come back to it and
//! try the wildcard child after the static branch failed.
use vstd::prelude::*;
use vstd::utf8::*;

use crate::params::Params;
use crate::router::error::{spec_unsure, MatchError};
use crate::router::insert::{empty_shape, holds_last, last_value_at, shape, spec_insert};
use crate::router::tree::{is_wild, lemma_find_wildcard, spec_find_wildcard, ConstNode, Node, NodeType};
use crate::text::{bytes_eq, seq_ends_with, find_byte, lemma_find_byte_from, slash, string_from_utf8};

verus! {

/// A node the walk may come back to: the node, the path offset at which it
/// was reached, and how many params were collected then.
pub ghost struct Skip<'a, T> {
    pub node: ConstNode<'a, T>,
    pub pos: int,
    pub params: int,
}

/// The state of a walk over the tree for the path `full`.
pub ghost struct Walk<'a, T> {
    pub node: ConstNode<'a, T>,
    pub pos: int,
    pub backtracking: bool,
    pub skipped: Seq<Skip<'a, T>>,
    pub params: Seq<(Seq<char>, Seq<char>)>,
}

/// The outcome of matching a path.
pub ghost enum Lookup<T> {
    /// The values of the matched node and the params collected on the way.
    Found(Seq<T>, Seq<(Seq<char>, Seq<char>)>),
    /// No route matched.
    Failed(MatchError),
    /// Matching would panic: the tree is malformed, or a param name or value
    /// is not valid UTF-8.
    Panics,
}

/// One step of the walk.
pub ghost enum Step<'a, T> {
    Next(Walk<'a, T>),
    Stop(Lookup<T>),
}

/// The rest of the path from offset `pos`.
pub open spec fn rest(full: Seq<u8>, pos: int) -> Seq<u8> {
    full.subrange(pos, full.len() as int)
}


/// The name of a wildcard node: its prefix without the leading `:` or `*`.
pub open spec fn wild_name<'a, T>(w: ConstNode<'a, T>) -> Seq<u8> {
    w.prefix@.subrange(1, w.prefix@.len() as int)
}

/// Pops remembered nodes until one whose path ends with the current one.
pub open spec fn backtrack<'a, T>(full: Seq<u8>, sk: Seq<Skip<'a, T>>, pos: int) -> Option<
    (Skip<'a, T>, Seq<Skip<'a, T>>),
>
    decreases sk.len(),
{
    if sk.len() == 0 {
        None
    } else if seq_ends_with(rest(full, sk.last().pos), rest(full, pos)) {
        Some((sk.last(), sk.drop_last()))
    } else {
        backtrack(full, sk.drop_last(), pos)
    }
}

/// Tries to backtrack when `cond` holds; stops with `fallback` otherwise or
/// when nothing is left to come back to.
pub open spec fn retry<'a, T>(
    full: Seq<u8>,
    sk: Seq<Skip<'a, T>>,
    pos: int,
    params: Seq<(Seq<char>, Seq<char>)>,
    cond: bool,
    fallback: Lookup<T>,
) -> Step<'a, T> {
    if cond && backtrack(full, sk, pos) is Some {
        let (e, rest_sk) = backtrack(full, sk, pos)->0;
        Step::Next(
            Walk {
                node: e.node,
                pos: e.pos,
                backtracking: true,
                skipped: rest_sk,
                params: params.take(e.params),
            },
        )
    } else {
        Step::Stop(fallback)
    }
}

/// The step of a walk at its wildcard child `w`, with `path1` the rest of the
/// path after the current node's prefix, starting at offset `p1`.
pub open spec fn wild_step<'a, T>(full: Seq<u8>, st: Walk<'a, T>, w: ConstNode<'a, T>, p1: int) -> Step<
    'a,
    T,
> {
    let path1 = rest(full, p1);
    if w.prefix@.len() == 0 || !valid_utf8(wild_name(w)) {
        Step::Stop(Lookup::Panics)
    } else {
        let key = decode_utf8(wild_name(w));
        match w.node_type {
            NodeType::Param => match find_byte(path1, 0x2fu8) {
                Some(idx) => {
                    let v = path1.subrange(0, idx);
                    if !valid_utf8(v) {
                        Step::Stop(Lookup::Panics)
                    } else {
                        let ps = st.params.push((key, decode_utf8(v)));
                        if w.children@.len() == 0 {
                            if path1.len() == idx + 1 {
                                Step::Stop(Lookup::Failed(MatchError::ExtraTrailingSlash))
                            } else {
                                Step::Stop(Lookup::Failed(MatchError::NotFound))
                            }
                        } else {
                            Step::Next(
                                Walk {
                                    node: w.children@[0],
                                    pos: p1 + idx,
                                    backtracking: false,
                                    skipped: st.skipped,
                                    params: ps,
                                },
                            )
                        }
                    }
                },
                None => {
                    if !valid_utf8(path1) {
                        Step::Stop(Lookup::Panics)
                    } else {
                        let ps = st.params.push((key, decode_utf8(path1)));
                        if w.value@.len() > 0 {
                            Step::Stop(Lookup::Found(w.value@, ps))
                        } else if w.children@.len() == 1 {
                            let c = w.children@[0];
                            if (c.prefix@ == slash() && c.value@.len() > 0) || (c.prefix@.len()
                                == 0 && c.indices@ == slash()) {
                                Step::Stop(Lookup::Failed(MatchError::MissingTrailingSlash))
                            } else {
                                retry(
                                    full,
                                    st.skipped,
                                    p1,
                                    ps,
                                    path1 != slash(),
                                    Lookup::Failed(MatchError::NotFound),
                                )
                            }
                        } else {
                            Step::Stop(Lookup::Failed(MatchError::NotFound))
                        }
                    }
                },
            },
            NodeType::CatchAll => {
                if !valid_utf8(path1) {
                    Step::Stop(Lookup::Panics)
                } else {
                    let ps = st.params.push((key, decode_utf8(path1)));
                    if w.value@.len() > 0 {
                        Step::Stop(Lookup::Found(w.value@, ps))
                    } else {
                        Step::Stop(Lookup::Failed(MatchError::NotFound))
                    }
                }
            },
            _ => Step::Stop(Lookup::Panics),
        }
    }
}

/// One step of the walk for the path `full`.
pub open spec fn step<'a, T>(full: Seq<u8>, st: Walk<'a, T>) -> Step<'a, T> {
    let n = st.node;
    let path = rest(full, st.pos);
    let prefix = n.prefix@;
    if path.len() > prefix.len() && path.subrange(0, prefix.len() as int) == prefix {
        let p1 = st.pos + prefix.len();
        let path1 = rest(full, p1);
        let hit = if st.backtracking {
            None
        } else {
            find_byte(n.indices@, path1[0])
        };
        if hit is Some {
            let i = hit->0;
            if i >= n.children@.len() {
                Step::Stop(Lookup::Panics)
            } else {
                Step::Next(
                    Walk {
                        node: n.children@[i],
                        pos: p1,
                        backtracking: st.backtracking,
                        skipped: if n.wild_child {
                            st.skipped.push(
                                Skip { node: n, pos: st.pos, params: st.params.len() as int },
                            )
                        } else {
                            st.skipped
                        },
                        params: st.params,
                    },
                )
            }
        } else if !n.wild_child {
            if path1 == slash() && n.value@.len() > 0 {
                Step::Stop(Lookup::Failed(MatchError::ExtraTrailingSlash))
            } else {
                retry(
                    full,
                    st.skipped,
                    p1,
                    st.params,
                    path1 != slash(),
                    Lookup::Failed(MatchError::NotFound),
                )
            }
        } else if n.children@.len() == 0 {
            Step::Stop(Lookup::Panics)
        } else {
            wild_step(full, st, n.children@.last(), p1)
        }
    } else if path == prefix {
        if n.value@.len() > 0 {
            Step::Stop(Lookup::Found(n.value@, st.params))
        } else if path != slash() && backtrack(full, st.skipped, st.pos) is Some {
            retry(full, st.skipped, st.pos, st.params, true, Lookup::Failed(MatchError::NotFound))
        } else if path == slash() && n.wild_child && n.node_type != NodeType::Root {
            Step::Stop(Lookup::Failed(spec_unsure(full)))
        } else if !st.backtracking && find_byte(n.indices@, 0x2fu8) is Some {
            let i = find_byte(n.indices@, 0x2fu8)->0;
            if i >= n.children@.len() {
                Step::Stop(Lookup::Panics)
            } else if n.children@[i].prefix@.len() == 1 && n.children@[i].value@.len() > 0 {
                Step::Stop(Lookup::Failed(MatchError::MissingTrailingSlash))
            } else {
                Step::Stop(Lookup::Failed(MatchError::NotFound))
            }
        } else {
            Step::Stop(Lookup::Failed(MatchError::NotFound))
        }
    } else if path == slash() && full != slash() {
        Step::Stop(Lookup::Failed(MatchError::ExtraTrailingSlash))
    } else if prefix.len() > 0 && prefix.last() == 0x2f && prefix.drop_last() == path
        && n.value@.len() > 0 {
        Step::Stop(Lookup::Failed(MatchError::MissingTrailingSlash))
    } else {
        retry(
            full,
            st.skipped,
            st.pos,
            st.params,
            path != slash(),
            Lookup::Failed(MatchError::NotFound),
        )
    }
}

// ---------------------------------------------------------------------------
// Termination of the walk.

/// Height of a node: 0 for a leaf.
pub open spec fn height<'a, T>(n: ConstNode<'a, T>) -> nat
    decreases n,
{
    if n.children@.len() == 0 {
        0
    } else {
        1 + max_height(n, n.children@.len() as int)
    }
}

/// The greatest height among the first `k` children of `n`.
pub open spec fn max_height<'a, T>(n: ConstNode<'a, T>, k: int) -> nat
    decreases n, k,
{
    if k <= 0 || k > n.children@.len() {
        0
    } else {
        proof {
            assert(decreases_to!(n => n.children@[k - 1]));
        }
        let h = height(n.children@[k - 1]);
        let r = max_height(n, k - 1);
        if h > r {
            h
        } else {
            r
        }
    }
}

proof fn lemma_max_height<'a, T>(n: ConstNode<'a, T>, k: int, i: int)
    requires
        0 <= i < k <= n.children@.len(),
    ensures
        height(n.children@[i]) <= max_height(n, k),
    decreases k,
{
    if i < k - 1 {
        lemma_max_height(n, k - 1, i);
    }
}

/// A child is lower than its parent.
pub proof fn lemma_child_height<'a, T>(n: ConstNode<'a, T>, i: int)
    requires
        0 <= i < n.children@.len(),
    ensures
        height(n.children@[i]) < height(n),
{
    lemma_max_height(n, n.children@.len() as int, i);
}

/// Weight of the current node when not backtracking.
pub open spec fn wx(h: nat) -> nat
    decreases h,
{
    if h == 0 {
        1
    } else {
        let wy = if h < 2 {
            1
        } else {
            wx((h - 2) as nat) + 1
        };
        (wy + 1) + wx((h - 1) as nat) + 1
    }
}

/// Weight of the current node when backtracking.
pub open spec fn wy(h: nat) -> nat {
    if h < 2 {
        1
    } else {
        wx((h - 2) as nat) + 1
    }
}

/// Weight of a remembered node.
pub open spec fn wz(h: nat) -> nat {
    wy(h) + 1
}

proof fn lemma_wx_mono(a: nat, b: nat)
    requires
        a < b,
    ensures
        wx(a) < wx(b),
    decreases b,
{
    if a < b - 1 {
        lemma_wx_mono(a, (b - 1) as nat);
    }
}

/// The weight of the remembered nodes.
pub open spec fn stack_weight<'a, T>(sk: Seq<Skip<'a, T>>) -> nat
    decreases sk.len(),
{
    if sk.len() == 0 {
        0
    } else {
        stack_weight(sk.drop_last()) + wz(height(sk.last().node))
    }
}

/// A bound on the steps left in a walk.
pub open spec fn measure<'a, T>(st: Walk<'a, T>) -> nat {
    stack_weight(st.skipped) + if st.backtracking {
        wy(height(st.node))
    } else {
        wx(height(st.node))
    }
}

/// The remembered nodes are higher than the current one and than those
/// remembered after them, and their param counts do not exceed the current.
pub open spec fn walk_inv<'a, T>(full: Seq<u8>, st: Walk<'a, T>) -> bool {
    &&& 0 <= st.pos <= full.len()
    &&& forall|i: int|
        0 <= i < st.skipped.len() ==> height(#[trigger] st.skipped[i].node) > height(st.node)
    &&& forall|i: int, j: int|
        0 <= i < j < st.skipped.len() ==> height(#[trigger] st.skipped[i].node) > height(
            #[trigger] st.skipped[j].node,
        )
    &&& forall|i: int|
        0 <= i < st.skipped.len() ==> 0 <= #[trigger] st.skipped[i].params <= st.params.len()
    &&& forall|i: int|
        0 <= i < st.skipped.len() ==> 0 <= #[trigger] st.skipped[i].pos <= full.len()
    &&& forall|i: int, j: int|
        0 <= i < j < st.skipped.len() ==> #[trigger] st.skipped[i].params
            <= #[trigger] st.skipped[j].params
}

proof fn lemma_stack_weight_take<'a, T>(sk: Seq<Skip<'a, T>>, k: int)
    requires
        0 <= k < sk.len(),
    ensures
        stack_weight(sk) >= stack_weight(sk.take(k)) + wz(height(sk[k].node)),
    decreases sk.len(),
{
    if k == sk.len() - 1 {
        assert(sk.drop_last() =~= sk.take(k));
    } else {
        lemma_stack_weight_take(sk.drop_last(), k);
        assert(sk.drop_last().take(k) =~= sk.take(k));
    }
}

pub proof fn lemma_backtrack<'a, T>(full: Seq<u8>, sk: Seq<Skip<'a, T>>, pos: int)
    ensures
        match backtrack(full, sk, pos) {
            Some((e, r)) => exists|k: int|
                0 <= k < sk.len() && sk[k] == e && r == sk.take(k),
            None => true,
        },
    decreases sk.len(),
{
    if sk.len() > 0 {
        if seq_ends_with(rest(full, sk.last().pos), rest(full, pos)) {
            assert(sk.drop_last() =~= sk.take(sk.len() - 1));
        } else {
            lemma_backtrack(full, sk.drop_last(), pos);
            if let Some((e, r)) = backtrack(full, sk.drop_last(), pos) {
                let k = choose|k: int|
                    0 <= k < sk.drop_last().len() && sk.drop_last()[k] == e && r
                        == sk.drop_last().take(k);
                assert(sk.drop_last().take(k) =~= sk.take(k));
            }
        }
    }
}

proof fn lemma_retry<'a, T>(
    full: Seq<u8>,
    st: Walk<'a, T>,
    pos: int,
    params: Seq<(Seq<char>, Seq<char>)>,
    cond: bool,
    fallback: Lookup<T>,
)
    requires
        walk_inv(full, st),
        params.len() >= st.params.len(),
    ensures
        retry(full, st.skipped, pos, params, cond, fallback) matches Step::Next(w2) ==> walk_inv(
            full,
            w2,
        ) && measure(w2) < measure(st),
{
    if cond && backtrack(full, st.skipped, pos) is Some {
        lemma_backtrack(full, st.skipped, pos);
        let (e, r) = backtrack(full, st.skipped, pos)->0;
        let k = choose|k: int|
            0 <= k < st.skipped.len() && st.skipped[k] == e && r == st.skipped.take(k);
        lemma_stack_weight_take(st.skipped, k);
        let w2 = Walk {
            node: e.node,
            pos: e.pos,
            backtracking: true,
            skipped: r,
            params: params.take(e.params),
        };
        assert(walk_inv(full, w2));
    }
}

/// A step that continues keeps the invariant and lowers the measure.
pub proof fn lemma_step<'a, T>(full: Seq<u8>, st: Walk<'a, T>)
    requires
        walk_inv(full, st),
    ensures
        step(full, st) matches Step::Next(w2) ==> walk_inv(full, w2) && measure(w2) < measure(
            st,
        ),
{
    let n = st.node;
    let path = rest(full, st.pos);
    let prefix = n.prefix@;
    if path.len() > prefix.len() && path.subrange(0, prefix.len() as int) == prefix {
        let p1 = st.pos + prefix.len();
        let path1 = rest(full, p1);
        let hit = if st.backtracking {
            None
        } else {
            find_byte(n.indices@, path1[0])
        };
        if hit is Some {
            let i = hit->0;
            lemma_find_byte_from(n.indices@, path1[0], 0);
            if i < n.children@.len() {
                lemma_child_height(n, i);
                let h = height(n);
                let hc = height(n.children@[i]);
                if hc < h - 1 {
                    lemma_wx_mono(hc, (h - 1) as nat);
                }
                if n.wild_child {
                    let sk2 = st.skipped.push(
                        Skip { node: n, pos: st.pos, params: st.params.len() as int },
                    );
                    assert(sk2.drop_last() =~= st.skipped);
                    assert(stack_weight(sk2) == stack_weight(st.skipped) + wz(h));
                }
                assert(wx(h) == wz(h) + wx((h - 1) as nat) + 1);
                assert(step(full, st) matches Step::Next(w2) ==> walk_inv(full, w2));
                assert(step(full, st) matches Step::Next(w2) ==> measure(w2) < measure(st));
            }
        } else if !n.wild_child {
            lemma_retry(full, st, p1, st.params, path1 != slash(), Lookup::Failed(MatchError::NotFound));
        } else if n.children@.len() > 0 {
            let w = n.children@.last();
            lemma_child_height(n, n.children@.len() - 1);
            if w.prefix@.len() > 0 && valid_utf8(wild_name(w)) && w.node_type == NodeType::Param {
                let key = decode_utf8(wild_name(w));
                lemma_find_byte_from(path1, 0x2fu8, 0);
                match find_byte(path1, 0x2fu8) {
                    Some(idx) => {
                        if w.children@.len() > 0 {
                            lemma_child_height(w, 0);
                            let h = height(n);
                            let hg = height(w.children@[0]);
                            if hg < h - 2 {
                                lemma_wx_mono(hg, (h - 2) as nat);
                            }
                            if h >= 1 {
                                lemma_wx_mono((h - 2) as nat, h);
                            }
                            assert(step(full, st) matches Step::Next(w2) ==> walk_inv(full, w2));
                            assert(step(full, st) matches Step::Next(w2) ==> measure(w2) < measure(st));
                        }
                    },
                    None => {
                        if valid_utf8(path1) {
                            let ps = st.params.push((key, decode_utf8(path1)));
                            lemma_retry(
                                full,
                                st,
                                p1,
                                ps,
                                path1 != slash(),
                                Lookup::Failed(MatchError::NotFound),
                            );
                        }
                    },
                }
            }
        }
    } else if path == prefix {
        lemma_retry(full, st, st.pos, st.params, true, Lookup::Failed(MatchError::NotFound));
    } else {
        lemma_retry(
            full,
            st,
            st.pos,
            st.params,
            path != slash(),
            Lookup::Failed(MatchError::NotFound),
        );
    }
}

/// The outcome of a walk from state `st`.
pub open spec fn run<'a, T>(full: Seq<u8>, st: Walk<'a, T>) -> Lookup<T>
    decreases measure(st),
    when walk_inv(full, st)
{
    match step(full, st) {
        Step::Next(w2) => {
            proof {
                lemma_step(full, st);
            }
            run(full, w2)
        },
        Step::Stop(r) => r,
    }
}

/// The walk's starting state at `root`.
pub open spec fn start<'a, T>(root: ConstNode<'a, T>) -> Walk<'a, T> {
    Walk { node: root, pos: 0, backtracking: false, skipped: Seq::empty(), params: Seq::empty() }
}

/// The outcome of matching `path` against the tree at `root`.
pub open spec fn spec_at<'a, T>(root: ConstNode<'a, T>, path: Seq<u8>) -> Lookup<T> {
    run(path, start(root))
}

/// A step that stops with a match stops at a node that holds values.
proof fn lemma_step_found<'a, T>(full: Seq<u8>, st: Walk<'a, T>)
    ensures
        step(full, st) matches Step::Stop(Lookup::Found(v, _)) ==> v.len() > 0,
{
}

/// A walk that ends with a match ends at a node that holds values.
proof fn lemma_run_found<'a, T>(full: Seq<u8>, st: Walk<'a, T>)
    requires
        walk_inv(full, st),
    ensures
        run(full, st) matches Lookup::Found(v, _) ==> v.len() > 0,
    decreases measure(st),
{
    lemma_step(full, st);
    lemma_step_found(full, st);
    if let Step::Next(w2) = step(full, st) {
        lemma_run_found(full, w2);
    }
}

/// A match always carries values: the node that a path matches holds at
/// least one.
pub proof fn law_match_has_values<'a, T>(root: ConstNode<'a, T>, path: Seq<u8>)
    ensures
        spec_at(root, path) matches Lookup::Found(v, _) ==> v.len() > 0,
{
    assert(walk_inv(path, start(root)));
    lemma_run_found(path, start(root));
}

/// `c` is the read-only form of `n`: the same prefixes, index bytes, flags,
/// priorities and values at every node.
pub open spec fn mirrors<'a, T>(c: ConstNode<'a, T>, n: Node<T>) -> bool
    decreases c,
{
    &&& c.priority == n.priority
    &&& c.wild_child == n.wild_child
    &&& c.indices@ == n.indices@
    &&& c.node_type == n.node_type
    &&& c.value@ == n.value@
    &&& c.prefix@ == n.prefix@
    &&& c.children@.len() == n.children@.len()
    &&& forall|i: int|
        0 <= i < c.children@.len() ==> mirrors(#[trigger] c.children@[i], n.children@[i])
}

/// A route without wildcards that was inserted under `val` into an empty
/// tree is found again: matching it gives back exactly `val`, with no
/// params.
pub proof fn law_insert_then_at<'a, T>(n: Node<T>, c: ConstNode<'a, T>, route: Seq<u8>, val: T)
    requires
        forall|k: int| 0 <= k < route.len() ==> !is_wild(#[trigger] route[k]),
        shape(n) == spec_insert(empty_shape(), route).0,
        holds_last(n, val),
        mirrors(c, n),
    ensures
        spec_insert(empty_shape(), route).1 is Ok,
        spec_at(c, route) == Lookup::Found(seq![val], Seq::<(Seq<char>, Seq<char>)>::empty()),
{
    lemma_find_wildcard(route);
    assert(spec_find_wildcard(route).0 is None);
    let s = shape(n);
    assert(s.prefix == route && s.values == 1 && s.children.len() == 0);
    assert(n.children@.len() == 0);
    let p = choose|p: Seq<int>| #[trigger] last_value_at(n, p, val);
    assert(p.len() == 0);
    assert(n.value@ =~= seq![val]);
    assert(walk_inv(route, start(c)));
    assert(rest(route, 0) =~= route);
}

} // verus!

verus! {

// ---------------------------------------------------------------------------
// The walk in executable code.

/// A node that the walk may come back to.
struct Skipped<'n, 'a, T> {
    pos: usize,
    node: &'n ConstNode<'a, T>,
    params: usize,
}

/// What one executed step of the walk decided.
enum Advance<'n, 'a, T> {
    Next(&'n ConstNode<'a, T>, usize, bool),
    Found(&'n [T]),
    Failed(MatchError),
}

spec fn skip_view<'n, 'a, T>(s: Seq<Skipped<'n, 'a, T>>) -> Seq<Skip<'a, T>> {
    s.map_values(|x: Skipped<'n, 'a, T>| Skip { node: *x.node, pos: x.pos as int, params: x.params as int })
}

spec fn walk_view<'n, 'a, T>(
    node: ConstNode<'a, T>,
    pos: usize,
    backtracking: bool,
    sk: Seq<Skipped<'n, 'a, T>>,
    params: Seq<(Seq<char>, Seq<char>)>,
) -> Walk<'a, T> {
    Walk { node, pos: pos as int, backtracking, skipped: skip_view(sk), params }
}

proof fn lemma_ends_with_offsets(full: Seq<u8>, a: int, b: int)
    requires
        0 <= a <= full.len(),
        0 <= b <= full.len(),
    ensures
        seq_ends_with(rest(full, a), rest(full, b)) == (a <= b),
{
    if a <= b {
        let x = rest(full, a);
        assert(x.subrange(x.len() - rest(full, b).len(), x.len() as int) =~= rest(full, b));
    }
}

/// Index of the first `b` in `s`.
fn find_index(s: &[u8], b: u8) -> (r: Option<usize>)
    ensures
        match r {
            Some(i) => find_byte(s@, b) == Some(i as int),
            None => find_byte(s@, b) is None,
        },
{
    proof {
        lemma_find_byte_from(s@, b, 0);
    }
    let mut i: usize = 0;
    while i < s.len()
        invariant
            i <= s@.len(),
            forall|k: int| 0 <= k < i ==> s@[k] != b,
            match find_byte(s@, b) {
                Some(j) => 0 <= j < s@.len() && s@[j] == b && forall|k: int|
                    0 <= k < j ==> s@[k] != b,
                None => forall|k: int| 0 <= k < s@.len() ==> s@[k] != b,
            },
        decreases s@.len() - i,
    {
        if s[i] == b {
            return Some(i);
        }
        i += 1;
    }
    None
}

/// The rest of `full` from `pos` is a single `/`.
fn is_slash_at(full: &[u8], pos: usize) -> (r: bool)
    requires
        pos <= full@.len(),
    ensures
        r == (rest(full@, pos as int) == slash()),
{
    let r = full.len() - pos == 1 && full[pos] == 0x2f;
    proof {
        if full@.len() - pos == 1 {
            assert(rest(full@, pos as int) =~= seq![full@[pos as int]]);
        }
        if rest(full@, pos as int) == slash() {
            assert(rest(full@, pos as int).len() == 1);
            assert(rest(full@, pos as int)[0] == full@[pos as int]);
        }
        if r {
            assert(rest(full@, pos as int) =~= slash());
        }
    }
    r
}

/// Pops remembered nodes until one whose path ends with the path at `pos`;
/// the params are cut back to what they were there.
fn try_backtrack<'n, 'a, T>(
    Ghost(full): Ghost<Seq<u8>>,
    skipped: &mut Vec<Skipped<'n, 'a, T>>,
    pos: usize,
    params: &mut Params,
) -> (r: Option<(&'n ConstNode<'a, T>, usize)>)
    requires
        old(params).wf(),
        pos <= full.len(),
        skips_ok(full, old(skipped)@, old(params)@.len() as int),
    ensures
        final(params).wf(),
        match backtrack(full, skip_view(old(skipped)@), pos as int) {
            Some((e, rest_sk)) => r matches Some((n, p)) && *n == e.node && p == e.pos
                && skip_view(final(skipped)@) == rest_sk && final(params)@ == old(params)@.take(
                e.params,
            ),
            None => r is None && final(params)@ == old(params)@,
        },
{
    loop
        invariant
            params.wf(),
            params@ == old(params)@,
            pos <= full.len(),
            forall|i: int|
                0 <= i < skipped@.len() ==> #[trigger] skipped@[i].pos <= full.len()
                    && skipped@[i].params <= params@.len(),
            backtrack(full, skip_view(old(skipped)@), pos as int) == backtrack(
                full,
                skip_view(skipped@),
                pos as int,
            ),
        decreases skipped@.len(),
    {
        let ghost before = skipped@;
        match skipped.pop() {
            Some(s) => {
                proof {
                    assert(skip_view(before).drop_last() =~= skip_view(skipped@));
                    lemma_ends_with_offsets(full, s.pos as int, pos as int);
                }
                if s.pos <= pos {
                    params.truncate(s.params);
                    return Some((s.node, s.pos));
                }
            },
            None => {
                return None;
            },
        }
    }
}

} // verus!

verus! {

spec fn skips_ok<'n, 'a, T>(full: Seq<u8>, sk: Seq<Skipped<'n, 'a, T>>, nparams: int) -> bool {
    forall|i: int|
        0 <= i < sk.len() ==> #[trigger] sk[i].pos <= full.len() && sk[i].params <= nparams
}

proof fn lemma_skips_ok<'n, 'a, T>(
    full: Seq<u8>,
    node: ConstNode<'a, T>,
    pos: usize,
    b: bool,
    sk: Seq<Skipped<'n, 'a, T>>,
    params: Seq<(Seq<char>, Seq<char>)>,
)
    requires
        walk_inv(full, walk_view(node, pos, b, sk, params)),
    ensures
        skips_ok(full, sk, params.len() as int),
{
    assert forall|i: int| 0 <= i < sk.len() implies #[trigger] sk[i].pos <= full.len()
        && sk[i].params <= params.len() by {
        let v = skip_view(sk);
        assert(v[i].pos == sk[i].pos);
        assert(v[i].params == sk[i].params);
        assert(0 <= v[i].params <= params.len());
        assert(0 <= v[i].pos <= full.len());
    }
}

/// Decodes a param name or value that the walk has checked to be UTF-8.
fn decode_checked(bytes: &[u8]) -> (r: String)
    requires
        valid_utf8(bytes@),
    ensures
        r@ == decode_utf8(bytes@),
{
    match string_from_utf8(bytes) {
        Some(s) => s,
        None => vstd::pervasive::unreached(),
    }
}

/// The step at the wildcard child `w` of the current node.
#[verifier::rlimit(40)]
fn wild_step_exec<'n, 'a, T>(
    full: &[u8],
    current: &'n ConstNode<'a, T>,
    w: &'n ConstNode<'a, T>,
    pos: usize,
    p1: usize,
    backtracking: bool,
    skipped: &mut Vec<Skipped<'n, 'a, T>>,
    params: &mut Params,
) -> (r: Advance<'n, 'a, T>)
    requires
        old(params).wf(),
        p1 < full@.len(),
        skips_ok(full@, old(skipped)@, old(params)@.len() as int),
        !(wild_step(full@, walk_view(*current, pos, backtracking, old(skipped)@, old(params)@), *w, p1 as int) matches Step::Stop(Lookup::Panics)),
    ensures
        final(params).wf(),
        ({
            let s = wild_step(full@, walk_view(*current, pos, backtracking, old(skipped)@, old(params)@), *w, p1 as int);
            match r {
                Advance::Next(n, p, b) => s == Step::Next(walk_view(*n, p, b, final(skipped)@, final(params)@)),
                Advance::Found(v) => s == Step::<'a, T>::Stop(Lookup::Found(v@, final(params)@)),
                Advance::Failed(e) => s == Step::<'a, T>::Stop(Lookup::Failed(e)),
            }
        }),
{
    let ghost st = walk_view(*current, pos, backtracking, old(skipped)@, old(params)@);
    let ghost path1 = rest(full@, p1 as int);
    let name = &w.prefix[1..w.prefix.len()];
    assert(name@ == wild_name(*w));
    let key = decode_checked(name);
    let tail = &full[p1..full.len()];
    assert(tail@ == path1);
    match w.node_type {
        NodeType::Param => {
            match find_index(tail, 0x2f) {
                Some(idx) => {
                    proof {
                        lemma_find_byte_from(path1, 0x2fu8, 0);
                    }
                    let vbytes = &tail[0..idx];
                    assert(vbytes@ == path1.subrange(0, idx as int));
                    let value = decode_checked(vbytes);
                    params.push(key, value);
                    if w.children.len() == 0 {
                        if tail.len() == idx + 1 {
                            return Advance::Failed(MatchError::ExtraTrailingSlash);
                        }
                        return Advance::Failed(MatchError::NotFound);
                    }
                    let ghost ps = params@;
                    let r = Advance::Next(&w.children[0], p1 + idx, false);
                    assert(skip_view(skipped@) == st.skipped);
                    r
                },
                None => {
                    let value = decode_checked(tail);
                    params.push(key, value);
                    if w.value.len() > 0 {
                        return Advance::Found(w.value);
                    }
                    if w.children.len() == 1 {
                        let c = &w.children[0];
                        let c_slash = c.prefix.len() == 1 && c.prefix[0] == 0x2f;
                        let c_idx_slash = c.indices.len() == 1 && c.indices[0] == 0x2f;
                        proof {
                            if c.prefix@.len() == 1 {
                                assert(c.prefix@ =~= seq![c.prefix@[0]]);
                            }
                            if c.indices@.len() == 1 {
                                assert(c.indices@ =~= seq![c.indices@[0]]);
                            }
                            if c.prefix@ == slash() {
                                assert(c.prefix@[0] == slash()[0]);
                            }
                            if c.indices@ == slash() {
                                assert(c.indices@[0] == slash()[0]);
                            }
                            if c_slash {
                                assert(c.prefix@ =~= slash());
                            }
                            if c_idx_slash {
                                assert(c.indices@ =~= slash());
                            }
                        }
                        if (c_slash && c.value.len() > 0) || (c.prefix.len() == 0 && c_idx_slash) {
                            return Advance::Failed(MatchError::MissingTrailingSlash);
                        }
                        if !is_slash_at(full, p1) {
                            proof {
                                lemma_skips_ok_push(full@, old(skipped)@, old(params)@.len() as int);
                            }
                            match try_backtrack(Ghost(full@), skipped, p1, params) {
                                Some((n, p)) => {
                                    return Advance::Next(n, p, true);
                                },
                                None => {},
                            }
                        }
                    }
                    Advance::Failed(MatchError::NotFound)
                },
            }
        },
        _ => {
            let value = decode_checked(tail);
            params.push(key, value);
            if w.value.len() > 0 {
                Advance::Found(w.value)
            } else {
                Advance::Failed(MatchError::NotFound)
            }
        },
    }
}

proof fn lemma_skips_ok_push<'n, 'a, T>(full: Seq<u8>, sk: Seq<Skipped<'n, 'a, T>>, n: int)
    requires
        skips_ok(full, sk, n),
    ensures
        skips_ok(full, sk, n + 1),
{
}

} // verus!

verus! {

/// One step of the walk.
#[verifier::rlimit(60)]
fn walk_step<'n, 'a, T>(
    full: &[u8],
    current: &'n ConstNode<'a, T>,
    pos: usize,
    backtracking: bool,
    skipped: &mut Vec<Skipped<'n, 'a, T>>,
    params: &mut Params,
) -> (r: Advance<'n, 'a, T>)
    requires
        old(params).wf(),
        walk_inv(full@, walk_view(*current, pos, backtracking, old(skipped)@, old(params)@)),
        !(step(full@, walk_view(*current, pos, backtracking, old(skipped)@, old(params)@)) matches Step::Stop(Lookup::Panics)),
    ensures
        final(params).wf(),
        ({
            let s = step(full@, walk_view(*current, pos, backtracking, old(skipped)@, old(params)@));
            match r {
                Advance::Next(n, p, b) => s == Step::Next(walk_view(*n, p, b, final(skipped)@, final(params)@)),
                Advance::Found(v) => s == Step::<'a, T>::Stop(Lookup::Found(v@, final(params)@)),
                Advance::Failed(e) => s == Step::<'a, T>::Stop(Lookup::Failed(e)),
            }
        }),
{
    let ghost st = walk_view(*current, pos, backtracking, old(skipped)@, old(params)@);
    let ghost path = rest(full@, pos as int);
    proof {
        lemma_skips_ok(full@, *current, pos, backtracking, old(skipped)@, old(params)@);
    }
    let plen = current.prefix.len();
    let path_len = full.len() - pos;
    proof {
        if path_len > plen {
            assert(path.subrange(0, plen as int) =~= full@.subrange(pos as int, pos + plen));
        }
    }
    if path_len > plen && bytes_eq(&full[pos..pos + plen], current.prefix) {
        let p1 = pos + plen;
        let ghost path1 = rest(full@, p1 as int);
        assert(path1[0] == full@[p1 as int]);
        if !backtracking {
            match find_index(current.indices, full[p1]) {
                Some(i) => {
                    if current.wild_child {
                        let ghost before = skipped@;
                        skipped.push(Skipped { pos, node: current, params: params.len() });
                        assert(skip_view(skipped@) =~= skip_view(before).push(
                            Skip { node: *current, pos: pos as int, params: params@.len() as int },
                        ));
                    }
                    return Advance::Next(&current.children[i], p1, backtracking);
                },
                None => {},
            }
        }
        if !current.wild_child {
            let at_slash = is_slash_at(full, p1);
            if at_slash && current.value.len() > 0 {
                return Advance::Failed(MatchError::ExtraTrailingSlash);
            }
            if !at_slash {
                match try_backtrack(Ghost(full@), skipped, p1, params) {
                    Some((n, p)) => {
                        return Advance::Next(n, p, true);
                    },
                    None => {},
                }
            }
            return Advance::Failed(MatchError::NotFound);
        }
        let last = current.children.len() - 1;
        let w = &current.children[last];
        assert(*w == current.children@.last());
        return wild_step_exec(full, current, w, pos, p1, backtracking, skipped, params);
    }
    let whole = path_len == plen && bytes_eq(&full[pos..full.len()], current.prefix);
    proof {
        if path.len() == plen {
            assert(full@.subrange(pos as int, full@.len() as int) =~= path);
        }
    }
    if whole {
        if current.value.len() > 0 {
            return Advance::Found(current.value);
        }
        let at_slash = is_slash_at(full, pos);
        if !at_slash {
            match try_backtrack(Ghost(full@), skipped, pos, params) {
                Some((n, p)) => {
                    return Advance::Next(n, p, true);
                },
                None => {},
            }
        }
        if at_slash && current.wild_child && current.node_type != NodeType::Root {
            return Advance::Failed(MatchError::unsure(full));
        }
        if !backtracking {
            match find_index(current.indices, 0x2f) {
                Some(i) => {
                    let c = &current.children[i];
                    if c.prefix.len() == 1 && c.value.len() > 0 {
                        return Advance::Failed(MatchError::MissingTrailingSlash);
                    }
                },
                None => {},
            }
        }
        return Advance::Failed(MatchError::NotFound);
    }
    let at_slash = is_slash_at(full, pos);
    let full_is_slash = is_slash_at(full, 0);
    assert(rest(full@, 0) =~= full@);
    if at_slash && !full_is_slash {
        return Advance::Failed(MatchError::ExtraTrailingSlash);
    }
    if plen > 0 && current.prefix[plen - 1] == 0x2f && current.value.len() > 0 {
        if bytes_eq(&current.prefix[0..plen - 1], &full[pos..full.len()]) {
            assert(current.prefix@.subrange(0, plen - 1) =~= current.prefix@.drop_last());
            return Advance::Failed(MatchError::MissingTrailingSlash);
        }
        assert(current.prefix@.subrange(0, plen - 1) =~= current.prefix@.drop_last());
    }
    if !at_slash {
        match try_backtrack(Ghost(full@), skipped, pos, params) {
            Some((n, p)) => {
                return Advance::Next(n, p, true);
            },
            None => {},
        }
    }
    Advance::Failed(MatchError::NotFound)
}

impl<'a, T> ConstNode<'a, T> {
    /// Matches `path` against the routes below this node: the values of the
    /// matched node and the params collected on the way, or why nothing
    /// matched. The outcome is the walk that [`spec_at`] describes, which
    /// must not panic.
    pub fn at<'n>(&'n self, path: &[u8]) -> (r: Result<(&'n [T], Params), MatchError>)
        requires
            !(spec_at(*self, path@) matches Lookup::Panics),
        ensures
            match r {
                Ok((v, ps)) => spec_at(*self, path@) == Lookup::Found(v@, ps@) && ps.wf(),
                Err(e) => spec_at(*self, path@) == Lookup::<T>::Failed(e),
            },
    {
        let mut current = self;
        let mut pos: usize = 0;
        let mut backtracking = false;
        let mut params = Params::new();
        let mut skipped: Vec<Skipped<'n, 'a, T>> = Vec::new();
        proof {
            assert(skip_view(skipped@) =~= Seq::<Skip<'a, T>>::empty());
            assert(walk_view(*current, pos, backtracking, skipped@, params@) == start(*self));
        }
        loop
            invariant
                params.wf(),
                walk_inv(path@, walk_view(*current, pos, backtracking, skipped@, params@)),
                run(path@, walk_view(*current, pos, backtracking, skipped@, params@)) == spec_at(
                    *self,
                    path@,
                ),
                !(spec_at(*self, path@) matches Lookup::Panics),
            decreases measure(walk_view(*current, pos, backtracking, skipped@, params@)),
        {
            let ghost st = walk_view(*current, pos, backtracking, skipped@, params@);
            proof {
                lemma_step(path@, st);
            }
            match walk_step(path, current, pos, backtracking, &mut skipped, &mut params) {
                Advance::Next(n, p, b) => {
                    current = n;
                    pos = p;
                    backtracking = b;
                },
                Advance::Found(v) => {
                    return Ok((v, params));
                },
                Advance::Failed(e) => {
                    return Err(e);
                },
            }
        }
    }
}

} // verus!
