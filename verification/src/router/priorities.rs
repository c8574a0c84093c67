//! Checking the priorities recorded in a tree.
use vstd::prelude::*;

use crate::router::tree::ConstNode;

verus! {

/// What checking the first `k` children of `n` gives: the sum of their
/// checked priorities, the first mismatch found, or `None` where a sum
/// overflows a `u32`.
pub open spec fn check_children<'a, T>(n: ConstNode<'a, T>, k: int) -> Option<Result<u32, (u32, u32)>>
    decreases n, k,
{
    if k <= 0 || k > n.children@.len() {
        Some(Ok(0u32))
    } else {
        match check_children(n, k - 1) {
            None => None,
            Some(Err(e)) => Some(Err(e)),
            Some(Ok(s)) => {
                proof {
                    assert(decreases_to!(n => n.children@[k - 1]));
                }
                match spec_check_priorities(n.children@[k - 1]) {
                    None => None,
                    Some(Err(e)) => Some(Err(e)),
                    Some(Ok(c)) => if s + c > u32::MAX {
                        None
                    } else {
                        Some(Ok((s + c) as u32))
                    },
                }
            },
        }
    }
}

/// What `check_priorities` gives for `n`: the number of its own values and
/// those below it where each node records that number as its priority;
/// otherwise the first node, in the order the children are walked, whose
/// recorded and counted priorities differ; `None` where a count overflows.
/// A node counts as holding a value where its values are not empty.
pub open spec fn spec_check_priorities<'a, T>(n: ConstNode<'a, T>) -> Option<Result<u32, (u32, u32)>>
    decreases n, n.children@.len() + 1,
{
    match check_children(n, n.children@.len() as int) {
        None => None,
        Some(Err(e)) => Some(Err(e)),
        Some(Ok(s)) => {
            let p = s + if n.value@.len() > 0 {
                1int
            } else {
                0int
            };
            if p > u32::MAX {
                None
            } else if n.priority != p {
                Some(Err((n.priority, p as u32)))
            } else {
                Some(Ok(p as u32))
            }
        },
    }
}

/// The number of nodes at and below `n` that hold values.
pub open spec fn value_count<'a, T>(n: ConstNode<'a, T>) -> nat
    decreases n, n.children@.len() + 1,
{
    children_count(n, n.children@.len() as int) + if n.value@.len() > 0 {
        1nat
    } else {
        0nat
    }
}

/// The number of nodes holding values in the subtrees of the first `k`
/// children of `n`.
pub open spec fn children_count<'a, T>(n: ConstNode<'a, T>, k: int) -> nat
    decreases n, k,
{
    if k <= 0 || k > n.children@.len() {
        0
    } else {
        proof {
            assert(decreases_to!(n => n.children@[k - 1]));
        }
        children_count(n, k - 1) + value_count(n.children@[k - 1])
    }
}

/// Every node of the tree records as its priority the number of nodes at
/// and below it that hold values.
pub open spec fn priorities_consistent<'a, T>(n: ConstNode<'a, T>) -> bool
    decreases n, n.children@.len() + 1,
{
    n.priority == value_count(n) && children_consistent(n, n.children@.len() as int)
}

/// The trees of the first `k` children of `n` are consistent.
pub open spec fn children_consistent<'a, T>(n: ConstNode<'a, T>, k: int) -> bool
    decreases n, k,
{
    if k <= 0 || k > n.children@.len() {
        true
    } else {
        proof {
            assert(decreases_to!(n => n.children@[k - 1]));
        }
        children_consistent(n, k - 1) && priorities_consistent(n.children@[k - 1])
    }
}

/// Checking the first `k` children passes, with their count, exactly where
/// each of them is consistent and the count fits a `u32`.
proof fn lemma_check_children_consistent<'a, T>(n: ConstNode<'a, T>, k: int)
    requires
        0 <= k <= n.children@.len(),
    ensures
        check_children(n, k) matches Some(Ok(s)) ==> s == children_count(n, k) && children_consistent(n, k),
        children_consistent(n, k) && children_count(n, k) <= u32::MAX ==> check_children(n, k) == Some(
            Ok::<u32, (u32, u32)>(children_count(n, k) as u32),
        ),
    decreases n, k,
{
    if k > 0 {
        lemma_check_children_consistent(n, k - 1);
        assert(decreases_to!(n => n.children@[k - 1]));
        let c = n.children@[k - 1];
        lemma_check_consistent(c);
        assert(children_count(n, k) == children_count(n, k - 1) + value_count(c));
        if let Some(Ok(s)) = check_children(n, k) {
            assert(check_children(n, k - 1) is Some);
            let s0 = check_children(n, k - 1)->Some_0->Ok_0;
            let c0 = spec_check_priorities(c)->Some_0->Ok_0;
            assert(s == s0 + c0);
        }
        if children_consistent(n, k) && children_count(n, k) <= u32::MAX {
            assert(check_children(n, k - 1) == Some(Ok::<u32, (u32, u32)>(children_count(n, k - 1) as u32)));
        }
    }
}

/// Checking a node passes exactly where its tree is consistent.
proof fn lemma_check_consistent<'a, T>(n: ConstNode<'a, T>)
    ensures
        spec_check_priorities(n) matches Some(Ok(p)) ==> p == n.priority && priorities_consistent(n),
        priorities_consistent(n) ==> spec_check_priorities(n) == Some(Ok::<u32, (u32, u32)>(n.priority)),
    decreases n, n.children@.len() + 1,
{
    let len = n.children@.len() as int;
    lemma_check_children_consistent(n, len);
    let v: int = if n.value@.len() > 0 {
        1
    } else {
        0
    };
    assert(value_count(n) == children_count(n, len) + v);
    if let Some(Ok(p)) = spec_check_priorities(n) {
        assert(check_children(n, len) is Some);
        let s = check_children(n, len)->Some_0->Ok_0;
        assert(p == s + v);
        assert(n.priority == p);
        assert(s == children_count(n, len));
        assert(n.priority == value_count(n));
    }
    if priorities_consistent(n) {
        assert(check_children(n, len) == Some(Ok::<u32, (u32, u32)>(children_count(n, len) as u32)));
    }
}

/// The sum of the priorities recorded at the first `k` children of `n`.
pub open spec fn children_priority_sum<'a, T>(n: ConstNode<'a, T>, k: int) -> int
    decreases k,
{
    if k <= 0 || k > n.children@.len() {
        0
    } else {
        children_priority_sum(n, k - 1) + n.children@[k - 1].priority
    }
}

/// The priority that a node should record given those of its children: their
/// sum, plus one where the node holds values.
pub open spec fn expected_priority<'a, T>(n: ConstNode<'a, T>) -> int {
    children_priority_sum(n, n.children@.len() as int) + if n.value@.len() > 0 {
        1int
    } else {
        0int
    }
}

/// A mismatch that the check reports lies at a node below `n` whose
/// subtrees are consistent, and is that node's recorded priority and the sum
/// of its children's priorities plus its own values, which differ.
pub open spec fn mismatch_at<'a, T>(n: ConstNode<'a, T>, a: u32, b: u32) -> bool {
    exists|q: Seq<int>|
        #[trigger] crate::router::routes::cnode_at(n, q) matches Some(m) && m.priority == a && b
            == expected_priority(m) && a != b && children_consistent(m, m.children@.len() as int)
}

proof fn lemma_mismatch_child<'a, T>(n: ConstNode<'a, T>, k: int, a: u32, b: u32)
    requires
        0 <= k < n.children@.len(),
        mismatch_at(n.children@[k], a, b),
    ensures
        mismatch_at(n, a, b),
{
    let q = choose|q: Seq<int>|
        #[trigger] crate::router::routes::cnode_at(n.children@[k], q) matches Some(m) && m.priority == a
            && b == expected_priority(m) && a != b && children_consistent(m, m.children@.len() as int);
    let q2 = seq![k] + q;
    assert(q2.drop_first() =~= q);
    assert(crate::router::routes::cnode_at(n, q2) == crate::router::routes::cnode_at(n.children@[k], q));
}

/// Checking the first `k` children: a pass sums their recorded priorities;
/// a mismatch lies below one of them.
proof fn lemma_children_report<'a, T>(n: ConstNode<'a, T>, k: int)
    requires
        0 <= k <= n.children@.len(),
    ensures
        check_children(n, k) matches Some(Ok(s)) ==> s == children_priority_sum(n, k),
        check_children(n, k) matches Some(Err((a, b))) ==> mismatch_at(n, a, b),
    decreases n, k,
{
    if k > 0 {
        lemma_children_report(n, k - 1);
        assert(decreases_to!(n => n.children@[k - 1]));
        let c = n.children@[k - 1];
        lemma_check_consistent(c);
        lemma_check_report(c);
        if let Some(Err((a, b))) = check_children(n, k) {
            if !(check_children(n, k - 1) matches Some(Err(_))) {
                lemma_mismatch_child(n, k - 1, a, b);
            }
        }
    }
}

/// A mismatch that checking `n` reports lies at a node below it.
proof fn lemma_check_report<'a, T>(n: ConstNode<'a, T>)
    ensures
        spec_check_priorities(n) matches Some(Err((a, b))) ==> mismatch_at(n, a, b),
    decreases n, n.children@.len() + 1,
{
    let len = n.children@.len() as int;
    lemma_children_report(n, len);
    lemma_check_children_consistent(n, len);
    if let Some(Err((a, b))) = spec_check_priorities(n) {
        if let Some(Ok(s)) = check_children(n, len) {
            assert(crate::router::routes::cnode_at(n, Seq::<int>::empty()) == Some(n));
            assert(n.priority == a && b == expected_priority(n) && a != b);
        }
    }
}

/// The priority check passes, giving the root's priority, exactly where
/// every node records as its priority the number of nodes at and below it
/// that hold values; where it does not, the mismatch it reports lies at a
/// node whose subtrees are consistent, and is that node's recorded priority
/// and the sum of its children's priorities plus its own values, which
/// differ.
pub proof fn law_check_priorities<'a, T>(n: ConstNode<'a, T>)
    ensures
        priorities_consistent(n) <==> spec_check_priorities(n) == Some(Ok::<u32, (u32, u32)>(n.priority)),
        spec_check_priorities(n) matches Some(Ok(p)) ==> p == n.priority,
        spec_check_priorities(n) matches Some(Err((a, b))) ==> mismatch_at(n, a, b),
{
    lemma_check_consistent(n);
    lemma_check_report(n);
}

impl<'a, T> ConstNode<'a, T> {
    /// Checks that each node's priority is the number of values held at it
    /// and below it; gives that number for this node, or the recorded and
    /// the counted priority of the first node where they differ.
    pub fn check_priorities(&self) -> (r: Result<u32, (u32, u32)>)
        requires
            spec_check_priorities(*self) is Some,
        ensures
            spec_check_priorities(*self) == Some(r),
        decreases *self,
    {
        let mut priority: u32 = 0;
        let mut i: usize = 0;
        while i < self.children.len()
            invariant
                i <= self.children@.len(),
                check_children(*self, i as int) == Some(Ok::<u32, (u32, u32)>(priority)),
                spec_check_priorities(*self) is Some,
            decreases self.children@.len() - i,
        {
            proof {
                lemma_check_children_prefix(*self, i + 1, self.children@.len() as int);
            }
            let c = self.children[i].check_priorities();
            match c {
                Ok(p) => {
                    priority = priority + p;
                },
                Err(e) => {
                    proof {
                        lemma_check_children_err(*self, i + 1, self.children@.len() as int);
                    }
                    return Err(e);
                },
            }
            i += 1;
        }
        if self.value.len() > 0 {
            priority = priority + 1;
        }
        if self.priority != priority {
            return Err((self.priority, priority));
        }
        Ok(priority)
    }
}

/// A check of all children that does not overflow passes through checks of
/// each prefix that do not overflow.
proof fn lemma_check_children_prefix<'a, T>(n: ConstNode<'a, T>, k: int, m: int)
    requires
        0 <= k <= m <= n.children@.len(),
        check_children(n, m) is Some,
    ensures
        check_children(n, k) is Some,
        check_children(n, k - 1) matches Some(Ok(_)) ==> spec_check_priorities(n.children@[k - 1]) is Some || k == 0,
    decreases m - k,
{
    if k < m {
        lemma_check_children_prefix(n, k + 1, m);
    }
}

/// A mismatch in the first `k` children is the outcome of checking all of
/// them.
proof fn lemma_check_children_err<'a, T>(n: ConstNode<'a, T>, k: int, m: int)
    requires
        0 <= k <= m <= n.children@.len(),
        check_children(n, k) matches Some(Err(_)),
    ensures
        check_children(n, m) == check_children(n, k),
    decreases m - k,
{
    if k < m {
        lemma_check_children_err(n, k, m - 1);
    }
}

} // verus!
