//! The radix tree used for URL path matching.
use vstd::prelude::*;

use crate::router::insert::shape;

verus! {

/// The types of nodes the tree can hold.
#[derive(PartialEq, Eq, Structural, PartialOrd, Ord, Debug, Clone, Copy)]
pub enum NodeType {
    /// The root path.
    Root,
    /// A route parameter, ex: `/:id`.
    Param,
    /// A catchall parameter, ex: `/*file`.
    CatchAll,
    /// Anything else.
    Static,
}

/// A radix tree node that routes are inserted into.
pub struct Node<T> {
    pub priority: u32,
    pub wild_child: bool,
    pub indices: Vec<u8>,
    pub node_type: NodeType,
    pub value: Vec<T>,
    pub prefix: Vec<u8>,
    pub children: Vec<Node<T>>,
}

/// A node whose bytes and values are borrowed, as a router built ahead of
/// time holds them.
pub struct ConstNode<'a, T> {
    pub priority: u32,
    pub wild_child: bool,
    pub indices: &'a [u8],
    pub node_type: NodeType,
    pub value: &'a [T],
    pub prefix: &'a [u8],
    pub children: Vec<ConstNode<'a, T>>,
}

/// A copy of `n` whose values are clones of those of `n`: the same tree
/// with as many values at each node.
fn clone_node<T: Clone>(n: &Node<T>) -> (r: Node<T>)
    ensures
        shape(r) == shape(*n),
    decreases n,
{
    let mut children: Vec<Node<T>> = Vec::new();
    let mut i: usize = 0;
    while i < n.children.len()
        invariant
            i <= n.children@.len(),
            children@.len() == i,
            forall|j: int| 0 <= j < i ==> shape(#[trigger] children@[j]) == shape(n.children@[j]),
        decreases n.children@.len() - i,
    {
        assert(decreases_to!(n => n.children@[i as int]));
        children.push(clone_node(&n.children[i]));
        i += 1;
    }
    let r = Node {
        prefix: vstd::slice::slice_to_vec(n.prefix.as_slice()),
        wild_child: n.wild_child,
        node_type: n.node_type,
        indices: vstd::slice::slice_to_vec(n.indices.as_slice()),
        children,
        value: n.value.clone(),
        priority: n.priority,
    };
    assert(shape(r).children =~= shape(*n).children);
    r
}

impl<T: Clone> Clone for Node<T> {
    fn clone(&self) -> (r: Self)
        ensures
            shape(r) == shape(*self),
    {
        clone_node(self)
    }
}

/// `a` and `b` hold the same fields, the children compared as sequences.
pub open spec fn same_const_node<'a, T>(a: ConstNode<'a, T>, b: ConstNode<'a, T>) -> bool {
    &&& a.priority == b.priority
    &&& a.wild_child == b.wild_child
    &&& a.indices == b.indices
    &&& a.node_type == b.node_type
    &&& a.value == b.value
    &&& a.prefix == b.prefix
    &&& a.children@.len() == b.children@.len()
}

/// A copy of `n`: the borrowed parts are shared, the children copied.
fn clone_const_node<'a, T>(n: &ConstNode<'a, T>) -> (r: ConstNode<'a, T>)
    ensures
        same_const_node(r, *n),
    decreases n,
{
    let mut children: Vec<ConstNode<'a, T>> = Vec::new();
    let mut i: usize = 0;
    while i < n.children.len()
        invariant
            i <= n.children@.len(),
            children@.len() == i,
            forall|j: int| 0 <= j < i ==> same_const_node(#[trigger] children@[j], n.children@[j]),
        decreases n.children@.len() - i,
    {
        assert(decreases_to!(n => n.children@[i as int]));
        children.push(clone_const_node(&n.children[i]));
        i += 1;
    }
    ConstNode {
        prefix: n.prefix,
        wild_child: n.wild_child,
        node_type: n.node_type,
        indices: n.indices,
        children,
        value: n.value,
        priority: n.priority,
    }
}

impl<'a, T: Clone> Clone for ConstNode<'a, T> {
    fn clone(&self) -> (r: Self)
        ensures
            r.priority == self.priority,
            r.wild_child == self.wild_child,
            r.indices == self.indices,
            r.node_type == self.node_type,
            r.value == self.value,
            r.prefix == self.prefix,
            r.children@.len() == self.children@.len(),
    {
        clone_const_node(self)
    }
}

impl<T> Default for Node<T> {
    fn default() -> (r: Self)
        ensures
            r.priority == 0,
            !r.wild_child,
            r.indices@.len() == 0,
            r.node_type == NodeType::Static,
            r.value@.len() == 0,
            r.prefix@.len() == 0,
            r.children@.len() == 0,
    {
        Node {
            prefix: Vec::new(),
            wild_child: false,
            node_type: NodeType::Static,
            indices: Vec::new(),
            children: Vec::new(),
            value: Vec::new(),
            priority: 0,
        }
    }
}

impl<'a, T> Default for ConstNode<'a, T> {
    fn default() -> (r: Self)
        ensures
            r.priority == 0,
            !r.wild_child,
            r.indices@.len() == 0,
            r.node_type == NodeType::Static,
            r.value@.len() == 0,
            r.prefix@.len() == 0,
            r.children@.len() == 0,
    {
        let empty_bytes: &'a [u8] = &[];
        let empty_values: &'a [T] = &[];
        ConstNode {
            prefix: empty_bytes,
            wild_child: false,
            node_type: NodeType::Static,
            indices: empty_bytes,
            children: Vec::new(),
            value: empty_values,
            priority: 0,
        }
    }
}

/// Shift bytes in array by n bytes left: the byte at `k + n` moves to `k`,
/// and zeros fill the end.
pub open spec fn spec_shift_n_bytes(bytes: [u8; 4], n: usize) -> Seq<u8> {
    Seq::new(4, |k: int| if k + n < 4 { bytes@[k + n] } else { 0u8 })
}

/// Shift bytes in array by n bytes left: the byte at `k + n` moves to `k`,
/// and zeros fill the end; a shift of 4 or more bytes clears the array.
pub fn shift_n_bytes(bytes: [u8; 4], n: usize) -> (r: [u8; 4])
    ensures
        r@ == spec_shift_n_bytes(bytes, n),
{
    let mut r = [0u8, 0u8, 0u8, 0u8];
    if n >= 4 {
        assert(r@ =~= spec_shift_n_bytes(bytes, n));
        return r;
    }
    let mut i: usize = 0;
    while i < 4
        invariant
            n < 4,
            i <= 4,
            forall|j: int| 0 <= j < i ==> r@[j] == (if j + n < 4 { bytes@[j + n] } else { 0u8 }),
            forall|j: int| i <= j < 4 ==> r@[j] == 0u8,
        decreases 4 - i,
    {
        if i + n < 4 {
            r[i] = bytes[i + n];
        }
        i += 1;
    }
    assert(r@ =~= spec_shift_n_bytes(bytes, n));
    r
}

/// Reports whether the byte could be the first byte of a `char`.
pub fn char_start(b: u8) -> (r: bool)
    ensures
        r == (b & 0xC0 != 0x80),
        r == !(0x80 <= b <= 0xbf),
{
    assert((b & 0xC0 != 0x80) == !(0x80 <= b && b <= 0xbf)) by (bit_vector);
    b & 0xC0 != 0x80
}

/// The first wildcard segment of `path`: where a `:` or `*` starts, the
/// segment runs to the next `/` or the end. `valid` says that no other `:` or
/// `*` stands in the segment.
pub open spec fn is_wild(c: u8) -> bool {
    c == 0x3a || c == 0x2a
}

/// Index of the first wildcard start in `path` at or after `from`.
pub open spec fn first_wild_from(path: Seq<u8>, from: int) -> Option<int>
    decreases path.len() - from,
{
    if from < 0 || from >= path.len() {
        None
    } else if is_wild(path[from]) {
        Some(from)
    } else {
        first_wild_from(path, from + 1)
    }
}

/// End (exclusive) of the segment that starts at `start`: the next `/` after
/// it, or the end of the path.
pub open spec fn segment_end_after(path: Seq<u8>, start: int) -> int {
    match crate::text::find_byte_from(path, 0x2fu8, start + 1) {
        Some(e) => e,
        None => path.len() as int,
    }
}

/// What `find_wildcard` reports of `path`: the wildcard segment, its start,
/// and whether its name is free of further `:` and `*`.
pub open spec fn spec_find_wildcard(path: Seq<u8>) -> (Option<(Seq<u8>, int)>, bool) {
    match first_wild_from(path, 0) {
        None => (None, false),
        Some(start) => {
            let end = segment_end_after(path, start);
            (
                Some((path.subrange(start, end), start)),
                forall|k: int| start < k < end ==> !is_wild(#[trigger] path[k]),
            )
        },
    }
}

proof fn lemma_first_wild_from(path: Seq<u8>, from: int)
    requires
        0 <= from,
    ensures
        match first_wild_from(path, from) {
            Some(i) => from <= i < path.len() && is_wild(path[i]) && forall|k: int|
                from <= k < i ==> !is_wild(path[k]),
            None => forall|k: int| from <= k < path.len() ==> !is_wild(path[k]),
        },
    decreases path.len() - from,
{
    if from < path.len() && !is_wild(path[from]) {
        lemma_first_wild_from(path, from + 1);
    }
}

/// The wildcard segment found lies in `path`, starts with `:` or `*`, and
/// is not empty.
pub proof fn lemma_find_wildcard(path: Seq<u8>)
    ensures
        match spec_find_wildcard(path).0 {
            Some((w, i)) => 0 <= i && i + w.len() <= path.len() && w.len() >= 1 && w
                == path.subrange(i, i + w.len()) && is_wild(w[0]) && (forall|k: int|
                0 <= k < i ==> !is_wild(#[trigger] path[k])) && (i + w.len() < path.len() ==> path[i
                + w.len()] == 0x2f),
            None => forall|k: int| 0 <= k < path.len() ==> !is_wild(#[trigger] path[k]),
        },
{
    lemma_first_wild_from(path, 0);
    if let Some(start) = first_wild_from(path, 0) {
        crate::text::lemma_find_byte_from(path, 0x2fu8, start + 1);
    }
}

/// Search for a wildcard segment and check the name for invalid characters.
pub fn find_wildcard(path: &[u8]) -> (r: (Option<(&[u8], usize)>, bool))
    ensures
        r.1 == spec_find_wildcard(path@).1,
        match (r.0, spec_find_wildcard(path@).0) {
            (None, None) => true,
            (Some((w, i)), Some((sw, si))) => w@ == sw && i == si,
            _ => false,
        },
{
    proof {
        lemma_first_wild_from(path@, 0);
    }
    let mut start: usize = 0;
    while start < path.len()
        invariant
            start <= path@.len(),
            first_wild_from(path@, 0) == first_wild_from(path@, start as int),
        decreases path@.len() - start,
    {
        let c = path[start];
        if c != 0x3a && c != 0x2a {
            start += 1;
            continue;
        }
        proof {
            crate::text::lemma_find_byte_from(path@, 0x2fu8, start + 1);
        }
        let mut valid = true;
        let mut end: usize = start + 1;
        while end < path.len()
            invariant
                start < end <= path@.len(),
                first_wild_from(path@, 0) == Some(start as int),
                forall|k: int| start < k < end ==> path@[k] != 0x2f,
                valid == forall|k: int| start < k < end ==> !is_wild(#[trigger] path@[k]),
                match crate::text::find_byte_from(path@, 0x2fu8, start + 1) {
                    Some(i) => start + 1 <= i < path@.len() && path@[i] == 0x2f && forall|k: int|
                        start + 1 <= k < i ==> path@[k] != 0x2f,
                    None => forall|k: int| start + 1 <= k < path@.len() ==> path@[k] != 0x2f,
                },
            decreases path@.len() - end,
        {
            let c2 = path[end];
            if c2 == 0x2f {
                assert(segment_end_after(path@, start as int) == end);
                return (Some((&path[start..end], start)), valid);
            }
            if c2 == 0x3a || c2 == 0x2a {
                valid = false;
            }
            end += 1;
        }
        assert(segment_end_after(path@, start as int) == path@.len());
        return (Some((&path[start..path.len()], start)), valid);
    }
    (None, false)
}

} // verus!
