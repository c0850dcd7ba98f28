use vstd::prelude::*;

use crate::graph::{is_ancestor, lemma_ancestor_precedes, StackGraph};

verus! {

/// What a rewrite of the stack may do with one commit.
#[derive(Clone, Copy, Debug, PartialEq, Eq, PartialOrd, Ord, Structural)]
pub enum Action {
    /// Ordinary stack content, free to rewrite.
    Pick,
    /// Published history reachable from a protected branch: never rewritten.
    Protected,
    /// Its changes are already upstream: dropped from any rewrite.
    Delete,
}

impl Action {
    pub fn is_pick(&self) -> (r: bool)
        ensures
            r == (*self == Action::Pick),
    {
        matches!(self, Action::Pick)
    }

    pub fn is_protected(&self) -> (r: bool)
        ensures
            r == (*self == Action::Protected),
    {
        matches!(self, Action::Protected)
    }

    pub fn is_delete(&self) -> (r: bool)
        ensures
            r == (*self == Action::Delete),
    {
        matches!(self, Action::Delete)
    }
}

/// Node `i` carries a protected branch.
pub open spec fn carries_protected(g: StackGraph, i: int) -> bool {
    exists|k: int|
        0 <= k < g.label_nodes().len() && g.label_nodes()[k] as int == i && #[trigger] g.label_protected()[k]
}

/// Node `i` carries a protected branch or lies below one: rewriting it would
/// alter published history.
pub open spec fn reaches_protected(g: StackGraph, i: int) -> bool {
    carries_protected(g, i) || exists|d: int| #[trigger] is_ancestor(g.parent_seq(), i, d) && carries_protected(g, d)
}

/// The action of node `i`: protection wins over redundancy.
pub open spec fn action_of(g: StackGraph, i: int) -> Action {
    if reaches_protected(g, i) {
        Action::Protected
    } else if g.redundant_seq()[i] {
        Action::Delete
    } else {
        Action::Pick
    }
}

proof fn lemma_child_on_path(ps: Seq<Option<usize>>, j: int, d: int)
    requires
        is_ancestor(ps, j, d),
    ensures
        exists|c: int| 0 <= c < ps.len() && #[trigger] ps[c] == Some(j as usize) && (c == d || is_ancestor(ps, c, d)),
    decreases d,
{
    let p = ps[d]->0 as int;
    if p != j {
        lemma_child_on_path(ps, j, p);
        let c = choose|c: int| 0 <= c < ps.len() && #[trigger] ps[c] == Some(j as usize) && (c == p || is_ancestor(ps, c, p));
        assert(is_ancestor(ps, c, d));
    } else {
        assert(ps[d] == Some(j as usize));
    }
}

proof fn lemma_ancestor_through_child(ps: Seq<Option<usize>>, j: int, c: int, d: int)
    requires
        crate::graph::is_tree(ps),
        0 <= c < ps.len(),
        ps[c] is Some,
        ps[c]->0 as int == j,
        is_ancestor(ps, c, d),
    ensures
        is_ancestor(ps, j, d),
    decreases d,
{
    let p = ps[d]->0 as int;
    assert(ps[d] is Some && p < d);
    if p != c {
        lemma_ancestor_through_child(ps, j, c, p);
    } else {
        assert(is_ancestor(ps, j, c));
    }
}

/// A node reaches a protected branch exactly when it carries one or one of
/// its children reaches one.
proof fn lemma_reach_by_children(g: StackGraph, j: int)
    requires
        g.wf(),
        0 <= j < g.node_count(),
    ensures
        reaches_protected(g, j) <==> carries_protected(g, j) || exists|c: int|
            0 <= c < g.node_count() && #[trigger] g.parent_seq()[c] == Some(j as usize) && reaches_protected(g, c),
{
    let ps = g.parent_seq();
    if reaches_protected(g, j) && !carries_protected(g, j) {
        let d = choose|d: int| #[trigger] is_ancestor(ps, j, d) && carries_protected(g, d);
        lemma_child_on_path(ps, j, d);
        let c = choose|c: int| 0 <= c < ps.len() && #[trigger] ps[c] == Some(j as usize) && (c == d || is_ancestor(ps, c, d));
        assert(reaches_protected(g, c));
    }
    if exists|c: int| 0 <= c < g.node_count() && #[trigger] g.parent_seq()[c] == Some(j as usize) && reaches_protected(g, c) {
        let c = choose|c: int| 0 <= c < g.node_count() && #[trigger] g.parent_seq()[c] == Some(j as usize) && reaches_protected(g, c);
        assert(c >= 1);
        assert(is_ancestor(ps, j, c));
        if !carries_protected(g, c) {
            let d = choose|d: int| #[trigger] is_ancestor(ps, c, d) && carries_protected(g, d);
            lemma_ancestor_through_child(ps, j, c, d);
        }
    }
}

/// The action of every node of `g`, by node.
pub fn classify(g: &StackGraph) -> (r: Vec<Action>)
    requires
        g.wf(),
    ensures
        r@.len() == g.node_count(),
        forall|i: int| 0 <= i < g.node_count() ==> #[trigger] r@[i] == action_of(*g, i),
{
    let ghost gs = *g;
    let n = g.len();
    let mut mark: Vec<bool> = Vec::new();
    let mut i: usize = 0;
    while i < n
        invariant
            i <= n,
            n == g.node_count(),
            mark@.len() == i,
            forall|j: int| 0 <= j < i ==> !(#[trigger] mark@[j]),
        decreases n - i,
    {
        mark.push(false);
        i = i + 1;
    }
    let m = g.branch_count();
    let mut k: usize = 0;
    while k < m
        invariant
            g.wf(),
            gs == *g,
            n == g.node_count(),
            m == g.label_nodes().len(),
            k <= m,
            mark@.len() == n,
            forall|j: int|
                0 <= j < n ==> (#[trigger] mark@[j] <==> exists|q: int|
                    0 <= q < k && g.label_nodes()[q] as int == j && #[trigger] g.label_protected()[q]),
        decreases m - k,
    {
        let node = g.branch_node(k);
        if g.branch_is_protected(k) {
            mark.set(node, true);
        }
        proof {
            assert forall|j: int| 0 <= j < n implies (#[trigger] mark@[j] <==> exists|q: int|
                0 <= q < k + 1 && g.label_nodes()[q] as int == j && #[trigger] g.label_protected()[q]) by {
                if mark@[j] && !(j == node && g.label_protected()[k as int]) {
                    let q = choose|q: int| 0 <= q < k && g.label_nodes()[q] as int == j && #[trigger] g.label_protected()[q];
                    assert(0 <= q < k + 1);
                }
            }
        }
        k = k + 1;
    }
    let mut hi: usize = n;
    while hi > 1
        invariant
            g.wf(),
            gs == *g,
            n == g.node_count(),
            1 <= hi <= n,
            mark@.len() == n,
            forall|j: int|
                0 <= j < n ==> (#[trigger] mark@[j] <==> carries_protected(gs, j) || exists|d: int|
                    hi <= d < n && #[trigger] g.parent_seq()[d] == Some(j as usize) && reaches_protected(gs, d)),
        decreases hi,
    {
        let c = hi - 1;
        proof {
            lemma_reach_by_children(gs, c as int);
            assert forall|d: int| 0 <= d < n && #[trigger] g.parent_seq()[d] == Some(c) implies hi <= d by {
                assert(is_ancestor(g.parent_seq(), c as int, d));
                lemma_ancestor_precedes(g.parent_seq(), c as int, d);
            }
            assert(mark@[c as int] == reaches_protected(gs, c as int));
        }
        let ghost before = mark@;
        let reached = mark[c];
        match g.parent(c) {
            Some(p) => {
                if reached {
                    mark.set(p, true);
                }
                proof {
                    assert forall|j: int| 0 <= j < n implies (#[trigger] mark@[j] <==> carries_protected(gs, j) || exists|d: int|
                        c <= d < n && #[trigger] g.parent_seq()[d] == Some(j as usize) && reaches_protected(gs, d)) by {
                        assert(before[j] <==> carries_protected(gs, j) || exists|d: int|
                            hi <= d < n && #[trigger] g.parent_seq()[d] == Some(j as usize) && reaches_protected(gs, d));
                        if j == p as int && reached {
                            assert(g.parent_seq()[c as int] == Some(j as usize));
                        }
                        if exists|d: int| c <= d < n && #[trigger] g.parent_seq()[d] == Some(j as usize) && reaches_protected(gs, d) {
                            let d = choose|d: int| c <= d < n && #[trigger] g.parent_seq()[d] == Some(j as usize) && reaches_protected(gs, d);
                            if d == c {
                                assert(j == p as int);
                            }
                        }
                    }
                }
            },
            None => {
                assert(false);
            },
        }
        hi = c;
    }
    proof {
        assert forall|j: int| 0 <= j < n implies (#[trigger] mark@[j] <==> reaches_protected(gs, j)) by {
            lemma_reach_by_children(gs, j);
            if exists|d: int| 0 <= d < n && #[trigger] g.parent_seq()[d] == Some(j as usize) && reaches_protected(gs, d) {
                let d = choose|d: int| 0 <= d < n && #[trigger] g.parent_seq()[d] == Some(j as usize) && reaches_protected(gs, d);
                assert(d != 0);
            }
        }
    }
    let mut r: Vec<Action> = Vec::new();
    let mut i: usize = 0;
    while i < n
        invariant
            g.wf(),
            gs == *g,
            n == g.node_count(),
            i <= n,
            mark@.len() == n,
            r@.len() == i,
            forall|j: int| 0 <= j < n ==> (#[trigger] mark@[j] <==> reaches_protected(gs, j)),
            forall|j: int| 0 <= j < i ==> #[trigger] r@[j] == action_of(gs, j),
        decreases n - i,
    {
        let a = if mark[i] {
            Action::Protected
        } else if g.is_redundant(i) {
            Action::Delete
        } else {
            Action::Pick
        };
        r.push(a);
        i = i + 1;
    }
    r
}

} // verus!
