//! What a match means: the route that a matched path spells out.
//!
//! A route is read off the nodes from the root down to the matched node:
//! a static node stands for its prefix, a param or catch-all node for the
//! value given to it, which a param's value does without a `/`.
use vstd::prelude::*;
use vstd::utf8::*;

use crate::router::insert::{
    empty_shape, holds_route, last_value_at, law_insert_keeps_well_formed, law_ok_insert_sets_prefixes, node_at,
    node_ok, prefixes_set, shape, spec_insert, spelled, well_formed,
};
use crate::router::lookup::{
    backtrack, lemma_backtrack, lemma_step, measure, mirrors, rest, retry, run, spec_at, start, step,
    walk_inv, wild_name, Lookup, Skip, Step, Walk,
};
use crate::text::{find_byte, lemma_find_byte_from, seq_ends_with, slash};
use crate::router::tree::{is_wild, ConstNode, Node, NodeType};

verus! {

/// A param or catch-all node, which stands for a value rather than for its
/// prefix.
pub open spec fn is_wildcard_node<'a, T>(n: ConstNode<'a, T>) -> bool {
    n.node_type == NodeType::Param || n.node_type == NodeType::CatchAll
}

/// The layout that the walk relies on, at every node: a param or catch-all
/// child is the wildcard child, the last one; a node with a wildcard child
/// has fewer index bytes than children; a param node has no wildcard child.
pub open spec fn const_layout<'a, T>(c: ConstNode<'a, T>) -> bool
    decreases c,
{
    &&& (c.wild_child ==> c.indices@.len() < c.children@.len())
    &&& (c.node_type == NodeType::Param ==> !c.wild_child)
    &&& forall|i: int|
        0 <= i < c.children@.len() && is_wildcard_node(#[trigger] c.children@[i]) ==> c.wild_child && i
            == c.children@.len() - 1
    &&& forall|i: int| 0 <= i < c.children@.len() ==> const_layout(#[trigger] c.children@[i])
}

/// The node reached from `n` through the child positions `q`.
pub open spec fn cnode_at<'a, T>(n: ConstNode<'a, T>, q: Seq<int>) -> Option<ConstNode<'a, T>>
    decreases q.len(),
{
    if q.len() == 0 {
        Some(n)
    } else if 0 <= q[0] < n.children@.len() {
        cnode_at(n.children@[q[0]], q.drop_first())
    } else {
        None
    }
}

/// How many params a node takes: one for a param or catch-all node.
pub open spec fn seg_k<'a, T>(n: ConstNode<'a, T>) -> int {
    if is_wildcard_node(n) {
        1
    } else {
        0
    }
}

/// The bytes a node stands for, given the params `ps` from it on: the
/// first param's value for a param or catch-all node, else its prefix.
pub open spec fn seg_of<'a, T>(n: ConstNode<'a, T>, ps: Seq<(Seq<char>, Seq<char>)>) -> Seq<u8> {
    if is_wildcard_node(n) {
        encode_utf8(ps[0].1)
    } else {
        n.prefix@
    }
}

/// `path` starts with the bytes that `n` stands for: for a param or
/// catch-all node, the first param is named after it, and a param's value
/// holds no `/`.
pub open spec fn seg_ok<'a, T>(n: ConstNode<'a, T>, path: Seq<u8>, ps: Seq<(Seq<char>, Seq<char>)>) -> bool {
    &&& ps.len() >= seg_k(n)
    &&& is_wildcard_node(n) ==> ps[0].0 == decode_utf8(wild_name(n))
    &&& n.node_type == NodeType::Param ==> !seg_of(n, ps).contains(0x2fu8)
    &&& seg_of(n, ps).len() <= path.len()
    &&& path.subrange(0, seg_of(n, ps).len() as int) == seg_of(n, ps)
}

/// The nodes from `n` down the positions `q`, the last one left out, spell
/// `path` with the params `ps`, in order.
pub open spec fn spells_to<'a, T>(
    n: ConstNode<'a, T>,
    q: Seq<int>,
    path: Seq<u8>,
    ps: Seq<(Seq<char>, Seq<char>)>,
) -> bool
    decreases q.len(),
{
    if q.len() == 0 {
        path.len() == 0 && ps.len() == 0
    } else {
        &&& 0 <= q[0] < n.children@.len()
        &&& seg_ok(n, path, ps)
        &&& spells_to(
            n.children@[q[0]],
            q.drop_first(),
            path.subrange(seg_of(n, ps).len() as int, path.len() as int),
            ps.subrange(seg_k(n), ps.len() as int),
        )
    }
}

/// The nodes from `n` down the positions `q`, the last one included, spell
/// `path` with the params `ps`, in order: the route of the last node
/// matches `path`, and `ps` are its wildcards filled in.
pub open spec fn route_spells<'a, T>(
    n: ConstNode<'a, T>,
    q: Seq<int>,
    path: Seq<u8>,
    ps: Seq<(Seq<char>, Seq<char>)>,
) -> bool
    decreases q.len(),
{
    if q.len() == 0 {
        seg_ok(n, path, ps) && path.len() == seg_of(n, ps).len() && ps.len() == seg_k(n)
    } else {
        &&& 0 <= q[0] < n.children@.len()
        &&& seg_ok(n, path, ps)
        &&& route_spells(
            n.children@[q[0]],
            q.drop_first(),
            path.subrange(seg_of(n, ps).len() as int, path.len() as int),
            ps.subrange(seg_k(n), ps.len() as int),
        )
    }
}

/// Some node of the tree at `root` holds the values `v`, and its route
/// matches `path` with the params `ps`.
pub open spec fn matched_route<'a, T>(
    root: ConstNode<'a, T>,
    path: Seq<u8>,
    v: Seq<T>,
    ps: Seq<(Seq<char>, Seq<char>)>,
) -> bool {
    exists|q: Seq<int>|
        #[trigger] route_spells(root, q, path, ps) && (cnode_at(root, q) matches Some(m) && m.value@ == v)
}

/// A node below a node of that layout has it too.
proof fn lemma_layout_at<'a, T>(n: ConstNode<'a, T>, q: Seq<int>)
    requires
        const_layout(n),
    ensures
        cnode_at(n, q) matches Some(m) ==> const_layout(m),
    decreases q.len(),
{
    if q.len() > 0 && 0 <= q[0] < n.children@.len() {
        lemma_layout_at(n.children@[q[0]], q.drop_first());
    }
}

/// Going one node further down: the nodes above `m` spell `a`, and `m`
/// stands for `b` with the params `ps2`.
proof fn lemma_spells_extend<'a, T>(
    n: ConstNode<'a, T>,
    q: Seq<int>,
    a: Seq<u8>,
    ps: Seq<(Seq<char>, Seq<char>)>,
    m: ConstNode<'a, T>,
    j: int,
    b: Seq<u8>,
    ps2: Seq<(Seq<char>, Seq<char>)>,
)
    requires
        spells_to(n, q, a, ps),
        cnode_at(n, q) == Some(m),
        0 <= j < m.children@.len(),
        seg_ok(m, b, ps2),
        b.len() == seg_of(m, ps2).len(),
        ps2.len() == seg_k(m),
    ensures
        spells_to(n, q.push(j), a + b, ps + ps2),
        cnode_at(n, q.push(j)) == Some(m.children@[j]),
    decreases q.len(),
{
    if q.len() == 0 {
        assert(a + b =~= b);
        assert(ps + ps2 =~= ps2);
        assert(q.push(j) =~= seq![j]);
        assert(seq![j].drop_first() =~= Seq::<int>::empty());
        assert(b.subrange(seg_of(m, ps2).len() as int, b.len() as int) =~= Seq::<u8>::empty());
        assert(ps2.subrange(seg_k(m), ps2.len() as int) =~= Seq::<(Seq<char>, Seq<char>)>::empty());
        let c = m.children@[j];
        assert(cnode_at(c, Seq::<int>::empty()) == Some(c));
        assert(spells_to(c, Seq::<int>::empty(), Seq::<u8>::empty(), Seq::<(Seq<char>, Seq<char>)>::empty()));
        assert(n == m);
        assert(spells_to(n, seq![j], b, ps2));
        assert(cnode_at(n, seq![j]) == Some(c));
    } else {
        let c = n.children@[q[0]];
        let sl = seg_of(n, ps).len() as int;
        let k = seg_k(n);
        let a2 = a.subrange(sl, a.len() as int);
        let ps3 = ps.subrange(k, ps.len() as int);
        lemma_spells_extend(c, q.drop_first(), a2, ps3, m, j, b, ps2);
        assert(q.push(j).drop_first() =~= q.drop_first().push(j));
        assert(q.push(j)[0] == q[0]);
        assert(seg_of(n, ps + ps2) == seg_of(n, ps));
        assert((a + b).subrange(0, sl) =~= a.subrange(0, sl));
        assert((a + b).subrange(sl, (a + b).len() as int) =~= a2 + b);
        assert((ps + ps2).subrange(k, (ps + ps2).len() as int) =~= ps3 + ps2);
        assert(spells_to(n, q.push(j), a + b, ps + ps2));
        assert(cnode_at(n, q.push(j)) == cnode_at(c, q.drop_first().push(j)));
    }
}

/// Ending at `m`: the nodes above `m` spell `a`, and `m` stands for `b`,
/// the rest of the path, with the params `ps2`, the last ones.
proof fn lemma_spells_finish<'a, T>(
    n: ConstNode<'a, T>,
    q: Seq<int>,
    a: Seq<u8>,
    ps: Seq<(Seq<char>, Seq<char>)>,
    m: ConstNode<'a, T>,
    b: Seq<u8>,
    ps2: Seq<(Seq<char>, Seq<char>)>,
)
    requires
        spells_to(n, q, a, ps),
        cnode_at(n, q) == Some(m),
        seg_ok(m, b, ps2),
        b.len() == seg_of(m, ps2).len(),
        ps2.len() == seg_k(m),
    ensures
        route_spells(n, q, a + b, ps + ps2),
    decreases q.len(),
{
    if q.len() == 0 {
        assert(a + b =~= b);
        assert(ps + ps2 =~= ps2);
    } else {
        let c = n.children@[q[0]];
        let sl = seg_of(n, ps).len() as int;
        let k = seg_k(n);
        let a2 = a.subrange(sl, a.len() as int);
        let ps3 = ps.subrange(k, ps.len() as int);
        lemma_spells_finish(c, q.drop_first(), a2, ps3, m, b, ps2);
        assert(seg_of(n, ps + ps2) == seg_of(n, ps));
        assert((a + b).subrange(0, sl) =~= a.subrange(0, sl));
        assert((a + b).subrange(sl, (a + b).len() as int) =~= a2 + b);
        assert((ps + ps2).subrange(k, (ps + ps2).len() as int) =~= ps3 + ps2);
    }
}

/// The walk stands at `node` at offset `pos` of `full` with the params
/// `ps`: the nodes above it spell the path up to `pos`.
pub open spec fn at_state<'a, T>(
    root: ConstNode<'a, T>,
    full: Seq<u8>,
    node: ConstNode<'a, T>,
    pos: int,
    ps: Seq<(Seq<char>, Seq<char>)>,
) -> bool {
    exists|q: Seq<int>|
        #[trigger] spells_to(root, q, full.subrange(0, pos), ps) && cnode_at(root, q) == Some(node)
}

/// A node the walk stands at: no wildcard node, and laid out as the walk
/// needs.
pub open spec fn walk_node_ok<'a, T>(n: ConstNode<'a, T>) -> bool {
    !is_wildcard_node(n) && const_layout(n)
}

/// A remembered node is one the walk stood at, with the first `e.params`
/// of the params `ps`.
pub open spec fn skip_ok<'a, T>(
    root: ConstNode<'a, T>,
    full: Seq<u8>,
    e: Skip<'a, T>,
    ps: Seq<(Seq<char>, Seq<char>)>,
) -> bool {
    &&& 0 <= e.params <= ps.len()
    &&& at_state(root, full, e.node, e.pos, ps.take(e.params))
    &&& walk_node_ok(e.node)
}

/// The walk's state is one that the tree at `root` accounts for.
pub open spec fn good_state<'a, T>(root: ConstNode<'a, T>, full: Seq<u8>, st: Walk<'a, T>) -> bool {
    &&& at_state(root, full, st.node, st.pos, st.params)
    &&& walk_node_ok(st.node)
    &&& forall|i: int| 0 <= i < st.skipped.len() ==> skip_ok(root, full, #[trigger] st.skipped[i], st.params)
}

proof fn lemma_skip_take<'a, T>(
    root: ConstNode<'a, T>,
    full: Seq<u8>,
    e: Skip<'a, T>,
    ps: Seq<(Seq<char>, Seq<char>)>,
    m: int,
)
    requires
        skip_ok(root, full, e, ps),
        e.params <= m <= ps.len(),
    ensures
        skip_ok(root, full, e, ps.take(m)),
{
    assert(ps.take(m).take(e.params) =~= ps.take(e.params));
}

proof fn lemma_skips_push<'a, T>(
    root: ConstNode<'a, T>,
    full: Seq<u8>,
    sk: Seq<Skip<'a, T>>,
    ps: Seq<(Seq<char>, Seq<char>)>,
    x: (Seq<char>, Seq<char>),
)
    requires
        forall|i: int| 0 <= i < sk.len() ==> skip_ok(root, full, #[trigger] sk[i], ps),
    ensures
        forall|i: int| 0 <= i < sk.len() ==> skip_ok(root, full, #[trigger] sk[i], ps.push(x)),
{
    assert forall|i: int| 0 <= i < sk.len() implies skip_ok(root, full, #[trigger] sk[i], ps.push(x)) by {
        assert(skip_ok(root, full, sk[i], ps));
        assert(ps.push(x).take(sk[i].params) =~= ps.take(sk[i].params));
    }
}

/// Coming back to a remembered node gives a state that the tree accounts
/// for.
proof fn lemma_retry_good<'a, T>(
    root: ConstNode<'a, T>,
    full: Seq<u8>,
    st: Walk<'a, T>,
    pos: int,
    params: Seq<(Seq<char>, Seq<char>)>,
    cond: bool,
    fallback: Lookup<T>,
)
    requires
        walk_inv(full, st),
        forall|i: int| 0 <= i < st.skipped.len() ==> skip_ok(root, full, #[trigger] st.skipped[i], params),
    ensures
        retry(full, st.skipped, pos, params, cond, fallback) matches Step::Next(w2) ==> good_state(
            root,
            full,
            w2,
        ),
{
    if cond && backtrack(full, st.skipped, pos) is Some {
        lemma_backtrack(full, st.skipped, pos);
        let (e, r) = backtrack(full, st.skipped, pos)->0;
        let k = choose|k: int|
            0 <= k < st.skipped.len() && st.skipped[k] == e && r == st.skipped.take(k);
        assert(skip_ok(root, full, st.skipped[k], params));
        let w2 = Walk {
            node: e.node,
            pos: e.pos,
            backtracking: true,
            skipped: r,
            params: params.take(e.params),
        };
        assert forall|i: int| 0 <= i < r.len() implies skip_ok(root, full, #[trigger] r[i], w2.params) by {
            assert(r[i] == st.skipped[i]);
            assert(skip_ok(root, full, st.skipped[i], params));
            assert(st.skipped[i].params <= st.skipped[k].params);
            lemma_skip_take(root, full, r[i], params, e.params);
        }
        assert(good_state(root, full, w2));
    }
}

/// One step from a state the tree accounts for: a next state is one too,
/// and a match is the route of the node that holds the values.
proof fn lemma_step_good<'a, T>(root: ConstNode<'a, T>, full: Seq<u8>, st: Walk<'a, T>)
    requires
        walk_inv(full, st),
        good_state(root, full, st),
    ensures
        step(full, st) matches Step::Next(w2) ==> good_state(root, full, w2),
        step(full, st) matches Step::Stop(Lookup::Found(v, ps)) ==> matched_route(root, full, v, ps),
{
    let q = choose|q: Seq<int>|
        #[trigger] spells_to(root, q, full.subrange(0, st.pos), st.params) && cnode_at(root, q) == Some(
            st.node,
        );
    let n = st.node;
    let a0 = full.subrange(0, st.pos);
    let path = rest(full, st.pos);
    let prefix = n.prefix@;
    let none: Seq<(Seq<char>, Seq<char>)> = Seq::empty();
    assert(st.params + none =~= st.params);
    assert(seg_of(n, none) == prefix);
    if path.len() > prefix.len() && path.subrange(0, prefix.len() as int) == prefix {
        let p1 = st.pos + prefix.len();
        let path1 = rest(full, p1);
        let a1 = full.subrange(0, p1);
        assert(a0 + prefix =~= a1);
        assert(prefix.subrange(0, prefix.len() as int) =~= prefix);
        assert(seg_ok(n, prefix, none));
        let hit = if st.backtracking {
            None
        } else {
            crate::text::find_byte(n.indices@, path1[0])
        };
        if hit is Some {
            let i = hit->0;
            crate::text::lemma_find_byte_from(n.indices@, path1[0], 0);
            if i < n.children@.len() {
                lemma_spells_extend(root, q, a0, st.params, n, i, prefix, none);
                let c = n.children@[i];
                assert(!is_wildcard_node(c));
                assert(const_layout(c));
                let sk2 = if n.wild_child {
                    st.skipped.push(Skip { node: n, pos: st.pos, params: st.params.len() as int })
                } else {
                    st.skipped
                };
                assert forall|j: int| 0 <= j < sk2.len() implies skip_ok(root, full, #[trigger] sk2[j], st.params) by {
                    if j < st.skipped.len() {
                        assert(sk2[j] == st.skipped[j]);
                    } else {
                        assert(st.params.take(st.params.len() as int) =~= st.params);
                    }
                }
                let w2 = Walk { node: c, pos: p1, backtracking: st.backtracking, skipped: sk2, params: st.params };
                assert(at_state(root, full, c, p1, st.params));
                assert(good_state(root, full, w2));
            }
        } else if !n.wild_child {
            lemma_retry_good(root, full, st, p1, st.params, path1 != crate::text::slash(), Lookup::Failed(crate::router::error::MatchError::NotFound));
        } else if n.children@.len() > 0 {
            let last = n.children@.len() - 1;
            let w = n.children@[last];
            assert(w == n.children@.last());
            lemma_spells_extend(root, q, a0, st.params, n, last, prefix, none);
            assert(const_layout(w));
            if w.prefix@.len() > 0 && valid_utf8(wild_name(w)) {
                let key = decode_utf8(wild_name(w));
                if w.node_type == NodeType::Param {
                    crate::text::lemma_find_byte_from(path1, 0x2fu8, 0);
                    match crate::text::find_byte(path1, 0x2fu8) {
                        Some(idx) => {
                            let v = path1.subrange(0, idx);
                            if valid_utf8(v) && w.children@.len() > 0 {
                                let x = (key, decode_utf8(v));
                                let ps = st.params.push(x);
                                decode_utf8_encode_utf8(v);
                                assert(seq![x][0] == x);
                                assert(seg_of(w, seq![x]) == v);
                                assert(!v.contains(0x2fu8)) by {
                                    if v.contains(0x2fu8) {
                                        let j = choose|j: int| 0 <= j < v.len() && v[j] == 0x2fu8;
                                        assert(path1[j] == v[j]);
                                    }
                                }
                                assert(v.subrange(0, v.len() as int) =~= v);
                                assert(seg_ok(w, v, seq![x]));
                                lemma_spells_extend(root, q.push(last), a1, st.params, w, 0, v, seq![x]);
                                assert(st.params + seq![x] =~= ps);
                                assert(a1 + v =~= full.subrange(0, p1 + idx));
                                let g = w.children@[0];
                                assert(!is_wildcard_node(g));
                                assert(const_layout(g));
                                lemma_skips_push(root, full, st.skipped, st.params, x);
                                let w2 = Walk {
                                    node: g,
                                    pos: p1 + idx,
                                    backtracking: false,
                                    skipped: st.skipped,
                                    params: ps,
                                };
                                assert(at_state(root, full, g, p1 + idx, ps));
                                assert(good_state(root, full, w2));
                            }
                        },
                        None => {
                            if valid_utf8(path1) {
                                let x = (key, decode_utf8(path1));
                                let ps = st.params.push(x);
                                decode_utf8_encode_utf8(path1);
                                assert(seq![x][0] == x);
                                assert(seg_of(w, seq![x]) == path1);
                                assert(!path1.contains(0x2fu8));
                                assert(path1.subrange(0, path1.len() as int) =~= path1);
                                assert(seg_ok(w, path1, seq![x]));
                                lemma_spells_finish(root, q.push(last), a1, st.params, w, path1, seq![x]);
                                assert(st.params + seq![x] =~= ps);
                                assert(a1 + path1 =~= full);
                                assert(matched_route(root, full, w.value@, ps));
                                lemma_skips_push(root, full, st.skipped, st.params, x);
                                lemma_retry_good(root, full, st, p1, ps, path1 != crate::text::slash(), Lookup::Failed(crate::router::error::MatchError::NotFound));
                            }
                        },
                    }
                } else if w.node_type == NodeType::CatchAll {
                    if valid_utf8(path1) {
                        let x = (key, decode_utf8(path1));
                        let ps = st.params.push(x);
                        decode_utf8_encode_utf8(path1);
                        assert(seq![x][0] == x);
                        assert(seg_of(w, seq![x]) == path1);
                        assert(path1.subrange(0, path1.len() as int) =~= path1);
                        assert(seg_ok(w, path1, seq![x]));
                        lemma_spells_finish(root, q.push(last), a1, st.params, w, path1, seq![x]);
                        assert(st.params + seq![x] =~= ps);
                        assert(a1 + path1 =~= full);
                        assert(matched_route(root, full, w.value@, ps));
                    }
                }
            }
        }
    } else if path == prefix {
        assert(a0 + prefix =~= full);
        assert(prefix.subrange(0, prefix.len() as int) =~= prefix);
        assert(seg_ok(n, prefix, none));
        lemma_spells_finish(root, q, a0, st.params, n, prefix, none);
        assert(matched_route(root, full, n.value@, st.params));
        lemma_retry_good(root, full, st, st.pos, st.params, true, Lookup::Failed(crate::router::error::MatchError::NotFound));
    } else {
        lemma_retry_good(root, full, st, st.pos, st.params, path != crate::text::slash(), Lookup::Failed(crate::router::error::MatchError::NotFound));
    }
}

/// A walk from a state the tree accounts for ends, where it matches, with
/// the route of the node that holds the values.
proof fn lemma_run_good<'a, T>(root: ConstNode<'a, T>, full: Seq<u8>, st: Walk<'a, T>)
    requires
        walk_inv(full, st),
        good_state(root, full, st),
    ensures
        run(full, st) matches Lookup::Found(v, ps) ==> matched_route(root, full, v, ps),
    decreases measure(st),
{
    lemma_step(full, st);
    lemma_step_good(root, full, st);
    if let Step::Next(w2) = step(full, st) {
        lemma_run_good(root, full, w2);
    }
}

/// What a match means, for a tree laid out as the walk needs and whose root
/// is no wildcard node: the values found are those of a node whose route
/// matches the path, and the params found are that route's wildcards filled
/// in order. Reading the route from the root down, each static node stands
/// for its prefix, and each param or catch-all node for the value of the
/// param named after it; a param's value holds no `/`.
pub proof fn law_match_spells_route<'a, T>(root: ConstNode<'a, T>, path: Seq<u8>)
    requires
        const_layout(root),
        !is_wildcard_node(root),
    ensures
        spec_at(root, path) matches Lookup::Found(v, ps) ==> matched_route(root, path, v, ps),
{
    let st = start(root);
    assert(walk_inv(path, st));
    let none: Seq<(Seq<char>, Seq<char>)> = Seq::empty();
    assert(path.subrange(0, 0) =~= Seq::<u8>::empty());
    assert(spells_to(root, Seq::<int>::empty(), path.subrange(0, 0), none));
    assert(cnode_at(root, Seq::<int>::empty()) == Some(root));
    assert(at_state(root, path, root, 0, none));
    assert(good_state(root, path, st));
    lemma_run_good(root, path, st);
}

/// The read-only form of a well-formed tree is laid out as the walk needs.
proof fn lemma_layout_of<'a, T>(c: ConstNode<'a, T>, n: Node<T>)
    requires
        mirrors(c, n),
        well_formed(shape(n)),
    ensures
        const_layout(c),
    decreases c,
{
    let s = shape(n);
    assert(node_ok(s));
    assert forall|i: int| 0 <= i < c.children@.len() implies const_layout(#[trigger] c.children@[i])
        && c.children@[i].node_type == s.children[i].node_type by {
        assert(s.children[i] == shape(n.children@[i]));
        assert(well_formed(s.children[i]));
        assert(mirrors(c.children@[i], n.children@[i]));
        lemma_layout_of(c.children@[i], n.children@[i]);
    }
}

/// What a match means in a tree built by inserts: in the read-only form of
/// a well-formed tree whose root is no wildcard node, the values a path
/// finds are those of a node whose route matches the path, and the params
/// found are that route's wildcards filled in order.
pub proof fn law_inserted_tree_match<'a, T>(n: Node<T>, c: ConstNode<'a, T>, path: Seq<u8>)
    requires
        well_formed(shape(n)),
        n.node_type != NodeType::Param,
        n.node_type != NodeType::CatchAll,
        mirrors(c, n),
    ensures
        spec_at(c, path) matches Lookup::Found(v, ps) ==> matched_route(c, path, v, ps),
{
    lemma_layout_of(c, n);
    law_match_spells_route(c, path);
}

/// The positions `q` lead from `n` through static children that are found
/// by their index bytes: each is the first child indexed by the first byte
/// of its prefix, which is not empty.
pub open spec fn indexed_path<'a, T>(n: ConstNode<'a, T>, q: Seq<int>) -> bool
    decreases q.len(),
{
    if q.len() == 0 {
        true
    } else {
        let j = q[0];
        &&& 0 <= j < n.indices@.len()
        &&& j < n.children@.len()
        &&& n.children@[j].prefix@.len() > 0
        &&& n.children@[j].prefix@[0] == n.indices@[j]
        &&& forall|k: int| 0 <= k < j ==> n.indices@[k] != n.indices@[j]
        &&& indexed_path(n.children@[j], q.drop_first())
    }
}

/// The prefixes from `n` down the positions `q`, the last node's included.
pub open spec fn prefixes_along<'a, T>(n: ConstNode<'a, T>, q: Seq<int>) -> Seq<u8>
    decreases q.len(),
{
    if q.len() > 0 && 0 <= q[0] < n.children@.len() {
        n.prefix@ + prefixes_along(n.children@[q[0]], q.drop_first())
    } else {
        n.prefix@
    }
}

/// A walk that is not backtracking, at a node from which an indexed path
/// spells the rest of the path, ends at the path's last node where that
/// holds values.
proof fn lemma_run_indexed<'a, T>(full: Seq<u8>, st: Walk<'a, T>, q: Seq<int>)
    requires
        walk_inv(full, st),
        !st.backtracking,
        indexed_path(st.node, q),
        rest(full, st.pos) == prefixes_along(st.node, q),
        cnode_at(st.node, q) matches Some(m) && m.value@.len() > 0,
    ensures
        cnode_at(st.node, q) matches Some(m) && run(full, st) == Lookup::Found(m.value@, st.params),
    decreases q.len(),
{
    lemma_step(full, st);
    let n = st.node;
    let path = rest(full, st.pos);
    let prefix = n.prefix@;
    if q.len() == 0 {
        assert(path == prefix);
        assert(step(full, st) == Step::<'a, T>::Stop(Lookup::Found(n.value@, st.params)));
    } else {
        let j = q[0];
        let c = n.children@[j];
        let q2 = q.drop_first();
        let tail = prefixes_along(c, q2);
        assert(path == prefix + tail);
        assert(tail.len() > 0) by {
            assert(tail == c.prefix@ + prefixes_along(c.children@[q2[0]], q2.drop_first()) || tail == c.prefix@);
        }
        assert(tail[0] == c.prefix@[0]) by {
            if q2.len() > 0 && 0 <= q2[0] < c.children@.len() {
                assert(tail == c.prefix@ + prefixes_along(c.children@[q2[0]], q2.drop_first()));
            }
        }
        assert(path.subrange(0, prefix.len() as int) =~= prefix);
        let p1 = st.pos + prefix.len();
        assert(path.subrange(prefix.len() as int, path.len() as int) =~= tail);
        assert(rest(full, p1) =~= path.subrange(prefix.len() as int, path.len() as int));
        crate::text::lemma_find_byte_from(n.indices@, tail[0], 0);
        assert(crate::text::find_byte(n.indices@, tail[0]) == Some(j)) by {
            let r = crate::text::find_byte(n.indices@, tail[0]);
            if let Some(i) = r {
                if i < j {
                    assert(n.indices@[i] != n.indices@[j]);
                }
                if i > j {
                    assert(n.indices@[j] == tail[0]);
                }
            } else {
                assert(n.indices@[j] == tail[0]);
            }
        }
        let sk2 = if n.wild_child {
            st.skipped.push(Skip { node: n, pos: st.pos, params: st.params.len() as int })
        } else {
            st.skipped
        };
        let w2 = Walk { node: c, pos: p1, backtracking: false, skipped: sk2, params: st.params };
        assert(step(full, st) == Step::Next(w2));
        assert(cnode_at(c, q2) == cnode_at(n, q));
        lemma_run_indexed(full, w2, q2);
    }
}

/// Every static route in the tree is found: where positions through
/// children found by their index bytes lead from the root to a node that
/// holds values, matching the prefixes along them gives that node's values
/// and no params.
pub proof fn law_static_route_found<'a, T>(root: ConstNode<'a, T>, q: Seq<int>)
    requires
        indexed_path(root, q),
        cnode_at(root, q) matches Some(m) && m.value@.len() > 0,
    ensures
        cnode_at(root, q) matches Some(m) && spec_at(root, prefixes_along(root, q)) == Lookup::Found(
            m.value@,
            Seq::<(Seq<char>, Seq<char>)>::empty(),
        ),
{
    let path = prefixes_along(root, q);
    let st = start(root);
    assert(walk_inv(path, st));
    assert(rest(path, 0) =~= path);
    lemma_run_indexed(path, st, q);
}

/// The positions `q` take only children that have index bytes.
pub open spec fn through_indices<'a, T>(c: ConstNode<'a, T>, q: Seq<int>) -> bool
    decreases q.len(),
{
    if q.len() == 0 {
        true
    } else {
        0 <= q[0] < c.indices@.len() && q[0] < c.children@.len() && through_indices(
            c.children@[q[0]],
            q.drop_first(),
        )
    }
}

/// In the read-only form of a tree built by successful inserts, children
/// taken by their index bytes are found by them.
proof fn lemma_indexed_of<'a, T>(c: ConstNode<'a, T>, n: Node<T>, q: Seq<int>)
    requires
        mirrors(c, n),
        well_formed(shape(n)),
        prefixes_set(shape(n)),
        through_indices(c, q),
    ensures
        indexed_path(c, q),
    decreases q.len(),
{
    if q.len() > 0 {
        let j = q[0];
        let s = shape(n);
        assert(node_ok(s));
        assert(s.children[j] == shape(n.children@[j]));
        assert(mirrors(c.children@[j], n.children@[j]));
        assert(s.children[j].prefix.len() > 0);
        assert(forall|k: int| 0 <= k < j ==> c.indices@[k] != c.indices@[j]) by {
            assert forall|k: int| 0 <= k < j implies c.indices@[k] != c.indices@[j] by {
                assert(s.indices[k] != s.indices[j]);
            }
        }
        assert(well_formed(s.children[j]));
        assert(prefixes_set(s.children[j]));
        lemma_indexed_of(c.children@[j], n.children@[j], q.drop_first());
    }
}

/// In the read-only form of a tree built from `Node::default()` by
/// successful inserts, every route whose nodes are taken by index bytes is
/// found: matching the prefixes along it gives the values of its last node,
/// where that holds values, and no params.
pub proof fn law_inserted_static_route_found<'a, T>(n: Node<T>, c: ConstNode<'a, T>, q: Seq<int>)
    requires
        well_formed(shape(n)),
        prefixes_set(shape(n)),
        mirrors(c, n),
        through_indices(c, q),
        cnode_at(c, q) matches Some(m) && m.value@.len() > 0,
    ensures
        cnode_at(c, q) matches Some(m) && spec_at(c, prefixes_along(c, q)) == Lookup::Found(
            m.value@,
            Seq::<(Seq<char>, Seq<char>)>::empty(),
        ),
{
    lemma_indexed_of(c, n, q);
    law_static_route_found(c, q);
}

/// A route without wildcards that the prefixes of a tree built by
/// successful inserts spell is reached through index bytes, and the
/// read-only form spells it along the same positions.
proof fn lemma_static_through<'a, T>(c: ConstNode<'a, T>, n: Node<T>, q: Seq<int>, r: Seq<u8>)
    requires
        mirrors(c, n),
        well_formed(shape(n)),
        prefixes_set(shape(n)),
        n.node_type != NodeType::Param,
        n.node_type != NodeType::CatchAll,
        node_at(n, q) is Some,
        spelled(n, q) == r,
        forall|k: int| 0 <= k < r.len() ==> !is_wild(#[trigger] r[k]),
    ensures
        through_indices(c, q),
        prefixes_along(c, q) == r,
        cnode_at(c, q) matches Some(m) && node_at(n, q) matches Some(o) && m.value@ == o.value@,
    decreases q.len(),
{
    if q.len() > 0 {
        let j = q[0];
        let s = shape(n);
        let o = n.children@[j];
        let q2 = q.drop_first();
        let r2 = spelled(o, q2);
        assert(s.children[j] == shape(o));
        assert(node_ok(s));
        assert(mirrors(c.children@[j], o));
        assert(r == n.prefix@ + r2);
        assert(r2.subrange(0, o.prefix@.len() as int) =~= o.prefix@) by {
            if q2.len() > 0 && 0 <= q2[0] < o.children@.len() {
                assert(r2 == o.prefix@ + spelled(o.children@[q2[0]], q2.drop_first()));
            }
        }
        if o.node_type == NodeType::Param || o.node_type == NodeType::CatchAll {
            assert(o.prefix@.len() > 0 && is_wild(o.prefix@[0]));
            assert(r[n.prefix@.len() as int] == o.prefix@[0]);
        }
        if j >= s.indices.len() {
            assert(s.wild_child && j == s.children.len() - 1);
            assert(s.children.last() == s.children[j]);
        }
        assert(forall|k: int| 0 <= k < r2.len() ==> !is_wild(#[trigger] r2[k])) by {
            assert forall|k: int| 0 <= k < r2.len() implies !is_wild(#[trigger] r2[k]) by {
                assert(r2[k] == r[n.prefix@.len() + k]);
            }
        }
        assert(well_formed(s.children[j]));
        assert(prefixes_set(s.children[j]));
        lemma_static_through(c.children@[j], o, q2, r2);
    }
}

/// A route without wildcards that an insert placed under `val` is found
/// again: in the read-only form of a tree built from `Node::default()` by
/// successful inserts, matching the route gives values whose last is `val`,
/// and no params.
pub proof fn law_insert_then_find_static_route<'a, T>(
    before: Node<T>,
    n: Node<T>,
    c: ConstNode<'a, T>,
    route: Seq<u8>,
    val: T,
)
    requires
        well_formed(shape(before)),
        prefixes_set(shape(before)),
        before.node_type != NodeType::Param,
        before.node_type != NodeType::CatchAll,
        forall|k: int| 0 <= k < route.len() ==> !is_wild(#[trigger] route[k]),
        spec_insert(shape(before), route).1 is Ok,
        shape(n) == spec_insert(shape(before), route).0,
        holds_route(n, val, route),
        mirrors(c, n),
    ensures
        spec_at(c, route) matches Lookup::Found(v, ps) && v.len() > 0 && v.last() == val && ps.len()
            == 0,
{
    law_insert_keeps_well_formed(shape(before), route);
    law_ok_insert_sets_prefixes(shape(before), route);
    let q = choose|q: Seq<int>| #[trigger] last_value_at(n, q, val) && spelled(n, q) == route;
    lemma_static_through(c, n, q, route);
    law_inserted_static_route_found(n, c, q);
}

/// A param route is found when its static siblings fail: at a node with
/// prefix `pre` whose children are static nodes that lead no further (no
/// index bytes, no wildcard child), each indexed by the first byte of its
/// prefix, and last a param leaf `w`, the wildcard child, a path `pre + v`
/// whose last segment `v` holds no `/` finds the values of the static child
/// whose prefix is `v`, where there is one that holds values; otherwise
/// `w`'s values with `v` as the value of `w`'s param, also where `v` starts
/// with a static child's prefix and goes on past it, or stops inside it: the
/// walk comes back from the static branch and tries the param.
pub proof fn law_param_found_after_static_siblings<'a, T>(root: ConstNode<'a, T>, v: Seq<u8>)
    requires
        root.wild_child,
        root.children@.len() == root.indices@.len() + 1,
        forall|i: int, j: int|
            0 <= i < j < root.indices@.len() ==> #[trigger] root.indices@[i] != #[trigger] root.indices@[j],
        forall|i: int|
            0 <= i < root.indices@.len() ==> {
                let s = #[trigger] root.children@[i];
                &&& s.prefix@.len() > 0
                &&& s.prefix@[0] == root.indices@[i]
                &&& forall|k: int| 0 <= k < s.prefix@.len() ==> s.prefix@[k] != 0x2fu8
                &&& s.indices@.len() == 0
                &&& !s.wild_child
            },
        root.children@.last().node_type == NodeType::Param,
        root.children@.last().prefix@.len() > 0,
        valid_utf8(wild_name(root.children@.last())),
        root.children@.last().value@.len() > 0,
        v.len() > 0,
        forall|k: int| 0 <= k < v.len() ==> #[trigger] v[k] != 0x2fu8,
        valid_utf8(v),
    ensures
        forall|i: int|
            0 <= i < root.indices@.len() && v == (#[trigger] root.children@[i]).prefix@
                && root.children@[i].value@.len() > 0 ==> spec_at(
                root,
                root.prefix@ + v,
            ) == Lookup::Found(root.children@[i].value@, Seq::<(Seq<char>, Seq<char>)>::empty()),
        (forall|i: int|
            0 <= i < root.indices@.len() ==> v != (#[trigger] root.children@[i]).prefix@
                || root.children@[i].value@.len() == 0) ==> spec_at(root, root.prefix@ + v) == Lookup::Found(
            root.children@.last().value@,
            seq![(decode_utf8(wild_name(root.children@.last())), decode_utf8(v))],
        ),
{
    let w = root.children@.last();
    let pre = root.prefix@;
    let full = pre + v;
    let st = start(root);
    let np = pre.len() as int;
    assert(walk_inv(full, st));
    assert(rest(full, 0) =~= full);
    assert(full.subrange(0, np) =~= pre);
    assert(rest(full, np) =~= v);
    lemma_find_byte_from(v, 0x2fu8, 0);
    assert(find_byte(v, 0x2fu8) is None);
    assert(v != slash()) by {
        if v == slash() {
            assert(v[0] == 0x2fu8);
        }
    }
    let found_w = Lookup::Found(w.value@, seq![(decode_utf8(wild_name(w)), decode_utf8(v))]);
    assert(Seq::<(Seq<char>, Seq<char>)>::empty().push((decode_utf8(wild_name(w)), decode_utf8(v)))
        =~= seq![(decode_utf8(wild_name(w)), decode_utf8(v))]);
    let back = Walk {
        node: root,
        pos: 0,
        backtracking: true,
        skipped: Seq::<Skip<'a, T>>::empty(),
        params: Seq::<(Seq<char>, Seq<char>)>::empty(),
    };
    assert(walk_inv(full, back));
    assert(step(full, back) == Step::<'a, T>::Stop(found_w));
    lemma_step(full, back);
    assert(run(full, back) == found_w);
    lemma_find_byte_from(root.indices@, v[0], 0);
    match find_byte(root.indices@, v[0]) {
        Some(i) => {
            let s = root.children@[i];
            assert(s.prefix@[0] == v[0]);
            let sk = seq![Skip { node: root, pos: 0, params: 0 }];
            assert(Seq::<Skip<'a, T>>::empty().push(Skip { node: root, pos: 0, params: 0 }) =~= sk);
            let at_s = Walk {
                node: s,
                pos: np,
                backtracking: false,
                skipped: sk,
                params: Seq::<(Seq<char>, Seq<char>)>::empty(),
            };
            assert(step(full, st) == Step::Next(at_s));
            lemma_step(full, st);
            assert(spec_at(root, full) == run(full, at_s));
            lemma_step(full, at_s);
            let sp = s.prefix@;
            assert(sk.drop_last() =~= Seq::<Skip<'a, T>>::empty());
            assert(Seq::<(Seq<char>, Seq<char>)>::empty().take(0) =~= Seq::<(Seq<char>, Seq<char>)>::empty());
            assert forall|j: int| 0 <= j < root.indices@.len() && v == (#[trigger] root.children@[j]).prefix@
                implies j == i by {
                assert(root.indices@[j] == v[0]);
                if j < i {
                    assert(root.indices@[j] != v[0]);
                }
                if j > i {
                    assert(root.indices@[i] != root.indices@[j]);
                }
            }
            if v == sp && s.value@.len() > 0 {
                assert(step(full, at_s) == Step::<'a, T>::Stop(
                    Lookup::Found(s.value@, Seq::<(Seq<char>, Seq<char>)>::empty()),
                ));
            } else if v == sp {
                assert(seq_ends_with(rest(full, 0), rest(full, np)));
                assert(backtrack(full, sk, np) == Some((sk.last(), sk.drop_last())));
                assert(step(full, at_s) == Step::Next(back));
            } else if v.len() > sp.len() && v.subrange(0, sp.len() as int) == sp {
                let p2 = np + sp.len();
                let v2 = rest(full, p2);
                assert(v2 =~= v.subrange(sp.len() as int, v.len() as int));
                assert(v2 != slash()) by {
                    if v2 == slash() {
                        assert(v2[0] == v[sp.len() as int]);
                    }
                }
                assert(seq_ends_with(rest(full, 0), rest(full, p2)));
                assert(backtrack(full, sk, p2) == Some((sk.last(), sk.drop_last())));
                assert(step(full, at_s) == Step::Next(back));
            } else {
                assert(!(sp.len() > 0 && sp.last() == 0x2f));
                assert(seq_ends_with(rest(full, 0), rest(full, np)));
                assert(backtrack(full, sk, np) == Some((sk.last(), sk.drop_last())));
                assert(step(full, at_s) == Step::Next(back));
            }
        },
        None => {
            assert forall|j: int| 0 <= j < root.indices@.len() implies v != (#[trigger] root.children@[j]).prefix@ by {
                assert(root.indices@[j] != v[0]);
            }
            assert(step(full, st) == Step::<'a, T>::Stop(found_w));
        },
    }
}

/// A route that ends with a param is found with the param's value: at a node
/// with prefix `pre` whose only child is a param leaf `w`, the wildcard
/// child, a path `pre + v` whose last segment `v` holds no `/` finds `w`'s
/// values, with `v` as the value of `w`'s param.
pub proof fn law_param_route_found<'a, T>(root: ConstNode<'a, T>, v: Seq<u8>)
    requires
        root.wild_child,
        root.indices@.len() == 0,
        root.children@.len() == 1,
        root.children@[0].node_type == NodeType::Param,
        root.children@[0].prefix@.len() > 0,
        valid_utf8(wild_name(root.children@[0])),
        root.children@[0].value@.len() > 0,
        v.len() > 0,
        forall|k: int| 0 <= k < v.len() ==> #[trigger] v[k] != 0x2fu8,
        valid_utf8(v),
    ensures
        spec_at(root, root.prefix@ + v) == Lookup::Found(
            root.children@[0].value@,
            seq![(decode_utf8(wild_name(root.children@[0])), decode_utf8(v))],
        ),
{
    let w = root.children@[0];
    let pre = root.prefix@;
    let full = pre + v;
    let st = start(root);
    let np = pre.len() as int;
    assert(walk_inv(full, st));
    assert(rest(full, 0) =~= full);
    assert(full.subrange(0, np) =~= pre);
    assert(rest(full, np) =~= v);
    lemma_find_byte_from(v, 0x2fu8, 0);
    assert(Seq::<(Seq<char>, Seq<char>)>::empty().push((decode_utf8(wild_name(w)), decode_utf8(v)))
        =~= seq![(decode_utf8(wild_name(w)), decode_utf8(v))]);
    assert(root.children@.last() == w);
    assert(find_byte(root.indices@, v[0]) is None);
    assert(step(full, st) == Step::<'a, T>::Stop(
        Lookup::Found(w.value@, seq![(decode_utf8(wild_name(w)), decode_utf8(v))]),
    ));
}

/// Matching in the tree of a static route and a param route that agree up
/// to the param: built from `Node::default()` by inserting `pre + s`, then
/// `pre + ":" + name` under `val`, a path `pre + v` whose last segment `v`
/// holds no `/` finds the static route, without params, where `v` is `s`;
/// any other such path finds the param route, whose last value is `val`,
/// with `v` as the value of `name`: also where `v` starts with `s` and goes
/// on past it, or stops inside it.
pub proof fn law_inserted_param_route_found<'a, T>(
    n: Node<T>,
    c: ConstNode<'a, T>,
    pre: Seq<u8>,
    s: Seq<u8>,
    name: Seq<u8>,
    val: T,
    v: Seq<u8>,
)
    requires
        forall|k: int| 0 <= k < pre.len() ==> !is_wild(#[trigger] pre[k]),
        s.len() > 0,
        forall|k: int| 0 <= k < s.len() ==> !is_wild(#[trigger] s[k]) && s[k] != 0x2fu8,
        name.len() > 0,
        forall|k: int| 0 <= k < name.len() ==> !is_wild(#[trigger] name[k]) && name[k] != 0x2fu8,
        valid_utf8(name),
        shape(n) == spec_insert(
            spec_insert(empty_shape(), pre + s).0,
            pre + seq![0x3au8] + name,
        ).0,
        holds_route(n, val, pre + seq![0x3au8] + name),
        mirrors(c, n),
        v.len() > 0,
        forall|k: int| 0 <= k < v.len() ==> #[trigger] v[k] != 0x2fu8,
        valid_utf8(v),
    ensures
        v == s ==> (spec_at(c, pre + v) matches Lookup::Found(vs, ps) && vs.len() > 0 && ps.len()
            == 0),
        v != s ==> (spec_at(c, pre + v) matches Lookup::Found(vs, ps) && vs.len() > 0 && vs.last()
            == val && ps == seq![(decode_utf8(name), decode_utf8(v))]),
{
    let r1 = pre + s;
    let wild = seq![0x3au8] + name;
    let r2 = pre + seq![0x3au8] + name;
    let np = pre.len() as int;
    assert(r2 =~= pre + wild);
    // The first insert: a single node.
    crate::router::tree::lemma_find_wildcard(r1);
    assert forall|k: int| 0 <= k < r1.len() implies !is_wild(#[trigger] r1[k]) by {
        if k < np {
            assert(r1[k] == pre[k]);
        } else {
            assert(r1[k] == s[k - np]);
        }
    }
    assert(crate::router::tree::spec_find_wildcard(r1).0 is None);
    let t1 = spec_insert(empty_shape(), r1).0;
    assert(t1.prefix == r1 && t1.children.len() == 0 && t1.indices.len() == 0 && !t1.wild_child
        && t1.values == 1 && t1.priority == 1);
    // The second insert splits it after `pre` and adds the param child.
    assert(r2[np] == 0x3a && r1[np] == s[0]);
    crate::router::insert::lemma_common_len_unique(r2, r1, np);
    let cur = crate::router::insert::bump(t1);
    let cur1 = crate::router::insert::split(cur, np, r2);
    assert(r2.subrange(0, np) =~= pre);
    assert(r1.subrange(np, r1.len() as int) =~= s);
    assert(r2.subrange(np, r2.len() as int) =~= wild);
    crate::text::lemma_find_byte_from(cur1.indices, 0x3au8, 0);
    assert(cur1.indices == seq![s[0]]);
    assert(crate::router::insert::first_index(cur1.indices, 0x3au8) is None);
    crate::router::tree::lemma_find_wildcard(wild);
    assert(wild[0] == 0x3a);
    assert(crate::router::tree::first_wild_from(wild, 0) == Some(0int));
    crate::text::lemma_find_byte_from(wild, 0x2fu8, 1);
    assert forall|k: int| 0 < k < wild.len() implies !is_wild(#[trigger] wild[k]) && wild[k] != 0x2fu8 by {
        assert(wild[k] == name[k - 1]);
    }
    assert(crate::router::tree::segment_end_after(wild, 0) == wild.len());
    assert(wild.subrange(0, wild.len() as int) =~= wild);
    assert(crate::router::tree::spec_find_wildcard(wild) == (Some((wild, 0int)), true));
    reveal(crate::router::insert::spec_walk);
    let t2 = spec_insert(t1, r2).0;
    assert(t2 == crate::router::insert::spec_insert_child(cur1, wild, r2).0);
    assert(t2.prefix == pre && t2.wild_child && t2.indices == seq![s[0]] && t2.children.len() == 2);
    assert(t2.children[0].prefix == s && t2.children[0].indices.len() == 0 && !t2.children[0].wild_child
        && t2.children[0].values == 1);
    assert(t2.children[1].prefix == wild && t2.children[1].node_type == NodeType::Param
        && t2.children[1].values == 1 && t2.children[1].children.len() == 0);
    assert(t2.children[0].children.len() == 0);
    // The read-only form has the same layout.
    let sn = shape(n);
    assert(sn.children[0] == shape(n.children@[0]));
    assert(sn.children[1] == shape(n.children@[1]));
    assert(mirrors(c.children@[0], n.children@[0]));
    assert(mirrors(c.children@[1], n.children@[1]));
    let sc = c.children@[0];
    let wc = c.children@[1];
    assert(c.prefix@ == pre && c.wild_child && c.indices@ == seq![s[0]] && c.children@.len() == 2);
    assert(sc.prefix@ == s && sc.indices@.len() == 0 && !sc.wild_child && sc.value@.len() == 1);
    assert(wc.node_type == NodeType::Param && wc.prefix@ == wild && wc.value@.len() == 1);
    assert(wild_name(wc) =~= name);
    assert(c.children@.last() == wc);
    // The param route's node holds `val` last.
    let q = choose|q: Seq<int>| #[trigger] last_value_at(n, q, val) && spelled(n, q) == r2;
    assert(q =~= seq![1int]) by {
        if q.len() == 0 || !(0 <= q[0] < n.children@.len()) {
            assert(spelled(n, q) == pre);
            assert(r2.len() > pre.len());
        } else if q[0] == 0 {
            assert(n.children@[0].children@.len() == 0);
            assert(spelled(n.children@[0], q.drop_first()) == s);
            assert(spelled(n, q) =~= r1);
            assert(r2[np] != r1[np]);
        } else {
            assert(n.children@[1].children@.len() == 0);
            if q.len() > 1 {
                assert(node_at(n.children@[1], q.drop_first()) is None);
            }
        }
    }
    assert(node_at(n, q) == Some(n.children@[1])) by {
        assert(node_at(n.children@[1], q.drop_first()) == Some(n.children@[1]));
    }
    assert(wc.value@.last() == val);
    law_param_found_after_static_siblings(c, v);
    if v == s {
        assert(c.children@[0].prefix@ == v);
    } else {
        assert(forall|i: int| 0 <= i < c.indices@.len() ==> v != (#[trigger] c.children@[i]).prefix@);
    }
}

/// Static routes beside a wildcard take only the paths they spell: at a
/// node with prefix `pre` whose children are static nodes that lead no
/// further (no index bytes, no wildcard child), each indexed by the first
/// byte of its prefix, and last a wildcard child, a path `pre + v` that no
/// static child takes (`v` is not the prefix of one that holds values, nor
/// such a prefix and `/`) matches as it does at the node `alone` that has
/// the same prefix and the wildcard child only, whatever lies below the
/// wildcard child: the walk comes back from the static branch and goes on
/// with the wildcard child.
pub proof fn law_static_siblings_pass_other_paths<'a, T>(
    root: ConstNode<'a, T>,
    alone: ConstNode<'a, T>,
    v: Seq<u8>,
)
    requires
        root.wild_child,
        root.children@.len() == root.indices@.len() + 1,
        forall|i: int, j: int|
            0 <= i < j < root.indices@.len() ==> #[trigger] root.indices@[i] != #[trigger] root.indices@[j],
        forall|i: int|
            0 <= i < root.indices@.len() ==> {
                let s = #[trigger] root.children@[i];
                &&& s.prefix@.len() > 0
                &&& s.prefix@[0] == root.indices@[i]
                &&& forall|k: int| 0 <= k < s.prefix@.len() ==> s.prefix@[k] != 0x2fu8
                &&& s.indices@.len() == 0
                &&& !s.wild_child
            },
        alone.prefix@ == root.prefix@,
        alone.wild_child,
        alone.indices@.len() == 0,
        alone.children@ == seq![root.children@.last()],
        v.len() > 0,
        forall|i: int|
            0 <= i < root.indices@.len() ==> v != (#[trigger] root.children@[i]).prefix@.push(0x2fu8)
                && (v != root.children@[i].prefix@ || root.children@[i].value@.len() == 0),
    ensures
        spec_at(root, root.prefix@ + v) == spec_at(alone, root.prefix@ + v),
{
    let pre = root.prefix@;
    let full = pre + v;
    let st = start(root);
    let st2 = start(alone);
    let np = pre.len() as int;
    assert(walk_inv(full, st));
    assert(walk_inv(full, st2));
    assert(rest(full, 0) =~= full);
    assert(full.subrange(0, np) =~= pre);
    assert(rest(full, np) =~= v);
    let back = Walk {
        node: root,
        pos: 0,
        backtracking: true,
        skipped: Seq::<Skip<'a, T>>::empty(),
        params: Seq::<(Seq<char>, Seq<char>)>::empty(),
    };
    assert(walk_inv(full, back));
    assert(root.children@.last() == alone.children@.last());
    assert(find_byte(alone.indices@, v[0]) is None);
    assert(step(full, back) == step(full, st2));
    lemma_step(full, back);
    lemma_step(full, st2);
    assert(run(full, back) == run(full, st2));
    lemma_find_byte_from(root.indices@, v[0], 0);
    match find_byte(root.indices@, v[0]) {
        Some(i) => {
            let s = root.children@[i];
            assert(s.prefix@[0] == v[0]);
            let sk = seq![Skip { node: root, pos: 0, params: 0 }];
            assert(Seq::<Skip<'a, T>>::empty().push(Skip { node: root, pos: 0, params: 0 }) =~= sk);
            let at_s = Walk {
                node: s,
                pos: np,
                backtracking: false,
                skipped: sk,
                params: Seq::<(Seq<char>, Seq<char>)>::empty(),
            };
            assert(step(full, st) == Step::Next(at_s));
            lemma_step(full, st);
            assert(spec_at(root, full) == run(full, at_s));
            lemma_step(full, at_s);
            let sp = s.prefix@;
            assert(sk.drop_last() =~= Seq::<Skip<'a, T>>::empty());
            assert(Seq::<(Seq<char>, Seq<char>)>::empty().take(0) =~= Seq::<(Seq<char>, Seq<char>)>::empty());
            assert(seq_ends_with(rest(full, 0), rest(full, np)));
            if v == sp {
                assert(s.value@.len() == 0);
                assert(v != slash()) by {
                    if v == slash() {
                        assert(sp[0] == 0x2fu8);
                    }
                }
                assert(backtrack(full, sk, np) == Some((sk.last(), sk.drop_last())));
                assert(step(full, at_s) == Step::Next(back));
            } else if v.len() > sp.len() && v.subrange(0, sp.len() as int) == sp {
                let p2 = np + sp.len();
                let v2 = rest(full, p2);
                assert(v2 =~= v.subrange(sp.len() as int, v.len() as int));
                assert(v2 != slash()) by {
                    if v2 == slash() {
                        assert(v =~= sp.push(0x2fu8));
                    }
                }
                assert(seq_ends_with(rest(full, 0), rest(full, p2)));
                assert(backtrack(full, sk, p2) == Some((sk.last(), sk.drop_last())));
                assert(step(full, at_s) == Step::Next(back));
            } else {
                assert(v != slash()) by {
                    if v == slash() {
                        assert(sp[0] == 0x2fu8);
                    }
                }
                assert(!(sp.len() > 0 && sp.last() == 0x2f));
                assert(backtrack(full, sk, np) == Some((sk.last(), sk.drop_last())));
                assert(step(full, at_s) == Step::Next(back));
            }
        },
        None => {
            assert(step(full, st) == step(full, st2));
            lemma_step(full, st);
        },
    }
}

} // verus!
