use vstd::prelude::*;

use crate::graph::{is_ancestor, is_tree, lemma_ancestor_precedes, StackGraph};

verus! {

/// Every entry of `ys` has its parent either at `start` or earlier in `ys`.
pub open spec fn parents_first(ps: Seq<Option<usize>>, start: int, ys: Seq<usize>) -> bool {
    forall|k: int|
        0 <= k < ys.len() ==> ps[#[trigger] ys[k] as int] == Some(start as usize) || exists|j: int|
            0 <= j < k && ys[j] == ps[ys[k] as int]->0
}

/// A single-use walk over the nodes below `start`, parents before children.
///
/// Nodes waiting to be visited sit on `pending`; the children of the node last
/// returned are pushed only when the walk moves on, so `stop` can prune them.
pub struct Cursor {
    start: usize,
    pending: Vec<usize>,
    prior: Option<usize>,
    stopped: bool,
    yielded: Ghost<Seq<usize>>,
    stops: Ghost<Set<usize>>,
    expanded: Ghost<Set<usize>>,
    graph_shape: Ghost<Seq<Option<usize>>>,
}

impl Cursor {
    /// Nodes returned so far, in order.
    pub closed spec fn visited(&self) -> Seq<usize> {
        self.yielded@
    }

    /// Nodes whose subtrees were pruned.
    pub closed spec fn stopped_set(&self) -> Set<usize> {
        self.stops@
    }

    pub closed spec fn start_node(&self) -> int {
        self.start as int
    }

    /// The node returned by the latest `next`, if the walk is not over.
    pub closed spec fn current(&self) -> Option<usize> {
        self.prior
    }

    /// Nothing is left to visit.
    pub closed spec fn is_done(&self) -> bool {
        self.pending@.len() == 0 && self.prior is None
    }

    /// The parent links of the graph this walk runs over.
    pub closed spec fn shape(&self) -> Seq<Option<usize>> {
        self.graph_shape@
    }

    pub closed spec fn inv(&self) -> bool {
        let ps = self.graph_shape@;
        let st = self.start as int;
        let pend = self.pending@;
        let ys = self.yielded@;
        &&& is_tree(ps)
        &&& ps.len() <= usize::MAX
        &&& st < ps.len()
        &&& forall|i: int|
            0 <= i < pend.len() ==> (#[trigger] pend[i] as int) < ps.len() && is_ancestor(ps, st, pend[i] as int)
        &&& forall|k: int|
            0 <= k < ys.len() ==> (#[trigger] ys[k] as int) < ps.len() && is_ancestor(ps, st, ys[k] as int)
        &&& ys.no_duplicates()
        &&& pend.no_duplicates()
        &&& forall|q: usize| !(pend.contains(q) && #[trigger] ys.contains(q))
        &&& forall|q: int|
            0 <= q < ps.len() && #[trigger] is_ancestor(ps, st, q) ==> ((pend.contains(q as usize) || ys.contains(q as usize))
                <==> (ps[q] == Some(st as usize) || self.expanded@.contains(ps[q]->0)))
        &&& forall|y: usize| #[trigger] self.expanded@.contains(y) ==> ys.contains(y) && !self.stops@.contains(y)
        &&& forall|y: usize| #[trigger] self.stops@.contains(y) ==> ys.contains(y)
        &&& forall|y: usize|
            #[trigger] ys.contains(y) ==> self.expanded@.contains(y) || self.stops@.contains(y) || self.prior == Some(y)
        &&& self.prior is Some ==> (ys.len() > 0 && ys.last() == self.prior->0 && !self.expanded@.contains(self.prior->0))
        &&& self.prior matches Some(p) ==> (!self.stopped ==> !self.stops@.contains(p) && forall|s: usize|
            #[trigger] self.stops@.contains(s) ==> !is_ancestor(ps, s as int, p as int))
        &&& self.stopped ==> (self.prior is Some && self.stops@.contains(self.prior->0))
        &&& forall|i: int, s: usize|
            0 <= i < pend.len() && #[trigger] self.stops@.contains(s) ==> !is_ancestor(ps, s as int, #[trigger] pend[i] as int)
        &&& forall|k: int, s: usize|
            0 <= k < ys.len() && #[trigger] self.stops@.contains(s) ==> !is_ancestor(ps, s as int, #[trigger] ys[k] as int)
        &&& parents_first(ps, st, ys)
    }

    /// Pushes every child of `p` onto `pending`, the first inserted on top.
    fn push_children(&mut self, g: &StackGraph, p: usize)
        requires
            g.wf(),
            p < g.node_count(),
        ensures
            final(self).start == old(self).start,
            final(self).graph_shape == old(self).graph_shape,
            final(self).prior == old(self).prior,
            final(self).stopped == old(self).stopped,
            final(self).yielded == old(self).yielded,
            final(self).stops == old(self).stops,
            final(self).expanded == old(self).expanded,
            old(self).pending@.len() <= final(self).pending@.len(),
            forall|i: int| 0 <= i < old(self).pending@.len() ==> #[trigger] final(self).pending@[i] == old(self).pending@[i],
            forall|i: int|
                old(self).pending@.len() <= i < final(self).pending@.len() ==> g.parent_seq()[
                #[trigger] final(self).pending@[i] as int] == Some(p) && final(self).pending@[i] < g.node_count(),
            forall|i: int, j: int|
                old(self).pending@.len() <= i < j < final(self).pending@.len() ==> #[trigger] final(self).pending@[i] > #[trigger] final(self).pending@[j],
            forall|q: int|
                0 <= q < g.node_count() && g.parent_seq()[q] == Some(p) ==> #[trigger] final(self).pending@.contains(q as usize),
    {
        let ghost ps = g.parent_seq();
        let ghost base = self.pending@;
        let n = g.len();
        let mut j: usize = n;
        while j > p + 1
            invariant
                g.wf(),
                ps == g.parent_seq(),
                n == g.node_count(),
                p < n,
                p + 1 <= j <= n,
                self.start == old(self).start,
                self.graph_shape == old(self).graph_shape,
                self.prior == old(self).prior,
                self.stopped == old(self).stopped,
                self.yielded == old(self).yielded,
                self.stops == old(self).stops,
                self.expanded == old(self).expanded,
                base == old(self).pending@,
                base.len() <= self.pending@.len(),
                forall|i: int| 0 <= i < base.len() ==> #[trigger] self.pending@[i] == base[i],
                forall|i: int|
                    base.len() <= i < self.pending@.len() ==> ps[#[trigger] self.pending@[i] as int] == Some(p)
                        && j <= self.pending@[i] < n,
                forall|i: int, k: int|
                    base.len() <= i < k < self.pending@.len() ==> #[trigger] self.pending@[i]
                        > #[trigger] self.pending@[k],
                forall|q: int| j <= q < n && ps[q] == Some(p) ==> #[trigger] self.pending@.contains(q as usize),
            decreases j,
        {
            j = j - 1;
            match g.parent(j) {
                Some(q) => {
                    if q == p {
                        let ghost before = self.pending@;
                        self.pending.push(j);
                        proof {
                            assert(self.pending@ == before.push(j));
                            assert(self.pending@[before.len() as int] == j);
                            assert forall|q: int| j <= q < n && ps[q] == Some(p) implies #[trigger] self.pending@.contains(q as usize) by {
                                if q > j {
                                    assert(before.contains(q as usize));
                                    let w = choose|w: int| 0 <= w < before.len() && before[w] == q as usize;
                                    assert(self.pending@[w] == q as usize);
                                }
                            }
                        }
                    }
                },
                None => {},
            }
        }
        proof {
            assert forall|q: int| 0 <= q < n && ps[q] == Some(p) implies #[trigger] self.pending@.contains(q as usize) by {
                if q <= p {
                    assert(is_ancestor(ps, p as int, q));
                    lemma_ancestor_precedes(ps, p as int, q);
                }
            }
        }
    }
}


/// Under `parents_first`, every ancestor of an entry that lies below
/// `start` comes earlier in the sequence.
pub proof fn lemma_ancestor_earlier(ps: Seq<Option<usize>>, st: int, ys: Seq<usize>, k: int, a: int)
    requires
        is_tree(ps),
        0 <= st < ps.len(),
        parents_first(ps, st, ys),
        forall|i: int| 0 <= i < ys.len() ==> (#[trigger] ys[i] as int) < ps.len(),
        0 <= k < ys.len(),
        is_ancestor(ps, st, a),
        is_ancestor(ps, a, ys[k] as int),
    ensures
        exists|j: int| 0 <= j < k && ys[j] as int == a,
    decreases k,
{
    let x = ys[k] as int;
    let p = ps[x]->0 as int;
    assert(ps[x] is Some);
    lemma_ancestor_precedes(ps, st, a);
    if ps[x] == Some(st as usize) {
        if p != a {
            lemma_ancestor_precedes(ps, a, p);
        }
    } else {
        let j = choose|j: int| 0 <= j < k && ys[j] == ps[ys[k] as int]->0;
        if p != a {
            lemma_ancestor_earlier(ps, st, ys, j, a);
        }
    }
}

impl Cursor {
    /// A walk over the nodes strictly below `start`.
    pub fn descendants_of(g: &StackGraph, start: usize) -> (c: Cursor)
        requires
            g.wf(),
            start < g.node_count(),
        ensures
            c.inv(),
            c.shape() == g.parent_seq(),
            c.start_node() == start,
            c.visited() == Seq::<usize>::empty(),
            c.stopped_set() == Set::<usize>::empty(),
            c.current() is None,
    {
        let mut c = Cursor {
            start,
            pending: Vec::new(),
            prior: None,
            stopped: false,
            yielded: Ghost(Seq::empty()),
            stops: Ghost(Set::empty()),
            expanded: Ghost(Set::empty()),
            graph_shape: Ghost(g.parent_seq()),
        };
        c.push_children(g, start);
        proof {
            let ps = g.parent_seq();
            let pend = c.pending@;
            assert forall|i: int| 0 <= i < pend.len() implies (#[trigger] pend[i] as int) < ps.len() && is_ancestor(ps, start as int, pend[i] as int) by {
                assert(ps[pend[i] as int] == Some(start));
            }
            assert forall|i: int, j: int| 0 <= i < pend.len() && 0 <= j < pend.len() && i != j implies pend[i] != pend[j] by {
                if i < j {
                    assert(pend[i] > pend[j]);
                } else {
                    assert(pend[j] > pend[i]);
                }
            }
            assert forall|q: int| 0 <= q < ps.len() && #[trigger] is_ancestor(ps, start as int, q) implies ((pend.contains(q as usize) || c.visited().contains(q as usize))
                <==> (ps[q] == Some(start) || c.expanded@.contains(ps[q]->0))) by {
                if pend.contains(q as usize) {
                    let w = choose|w: int| 0 <= w < pend.len() && pend[w] == q as usize;
                    assert(ps[pend[w] as int] == Some(start));
                }
                if ps[q] == Some(start) {
                    assert(pend.contains(q as usize));
                }
                assert(!c.visited().contains(q as usize));
                assert(!c.expanded@.contains(ps[q]->0));
            }
        }
        c
    }

    /// Puts the children of the node last returned on the frontier, unless
    /// its subtree was stopped, and forgets that node.
    fn expand(&mut self, g: &StackGraph)
        requires
            g.wf(),
            old(self).inv(),
            old(self).shape() == g.parent_seq(),
        ensures
            final(self).inv(),
            final(self).shape() == old(self).shape(),
            final(self).start == old(self).start,
            final(self).graph_shape == old(self).graph_shape,
            final(self).yielded == old(self).yielded,
            final(self).stops == old(self).stops,
            final(self).prior is None,
            !final(self).stopped,
    {
        let ghost ps = g.parent_seq();
        let ghost st = self.start as int;
        match self.prior {
            Some(p) => {
                if !self.stopped {
                    let ghost pre = self.pending@;
                    self.push_children(g, p);
                    self.expanded = Ghost(self.expanded@.insert(p));
                    proof {
                        let pend = self.pending@;
                        let ys = self.yielded@;
                        let ex = self.expanded@;
                        assert(ys.contains(p)) by {
                            assert(ys[ys.len() - 1] == p);
                        }
                        lemma_ancestor_precedes(ps, st, p as int);
                        assert forall|i: int| pre.len() <= i < pend.len() implies is_ancestor(ps, st, #[trigger] pend[i] as int)
                            && !pre.contains(pend[i]) && !ys.contains(pend[i]) by {
                            let c = pend[i] as int;
                            assert(ps[c] == Some(p));
                            assert(is_ancestor(ps, st, c));
                            assert(!old(self).expanded@.contains(p));
                        }
                        assert forall|i: int| 0 <= i < pend.len() implies (#[trigger] pend[i] as int) < ps.len() && is_ancestor(ps, st, pend[i] as int) by {
                            if i < pre.len() {
                                assert(pend[i] == pre[i]);
                            }
                        }
                        assert forall|i: int, j: int| 0 <= i < pend.len() && 0 <= j < pend.len() && i != j implies pend[i] != pend[j] by {
                            if i < pre.len() && j < pre.len() {
                                assert(pend[i] == pre[i] && pend[j] == pre[j]);
                            } else if i < pre.len() {
                                assert(pre.contains(pend[i]));
                            } else if j < pre.len() {
                                assert(pre.contains(pend[j]));
                            } else if i < j {
                                assert(pend[i] > pend[j]);
                            } else {
                                assert(pend[j] > pend[i]);
                            }
                        }
                        assert forall|q: usize| !(pend.contains(q) && #[trigger] ys.contains(q)) by {
                            if pend.contains(q) {
                                let w = choose|w: int| 0 <= w < pend.len() && pend[w] == q;
                                if w < pre.len() {
                                    assert(pre[w] == q);
                                    assert(pre.contains(q));
                                }
                            }
                        }
                        assert forall|q: int| 0 <= q < ps.len() && #[trigger] is_ancestor(ps, st, q) implies ((pend.contains(q as usize) || ys.contains(q as usize))
                            <==> (ps[q] == Some(st as usize) || ex.contains(ps[q]->0))) by {
                            if pend.contains(q as usize) {
                                let w = choose|w: int| 0 <= w < pend.len() && pend[w] == q as usize;
                                if w < pre.len() {
                                    assert(pre[w] == q as usize);
                                    assert(pre.contains(q as usize));
                                } else {
                                    assert(ps[pend[w] as int] == Some(p));
                                }
                            }
                            if pre.contains(q as usize) {
                                let w = choose|w: int| 0 <= w < pre.len() && pre[w] == q as usize;
                                assert(pend[w] == q as usize);
                            }
                        }
                        assert forall|i: int, s: usize| 0 <= i < pend.len() && #[trigger] self.stops@.contains(s) implies !is_ancestor(ps, s as int, #[trigger] pend[i] as int) by {
                            if i < pre.len() {
                                assert(pend[i] == pre[i]);
                            } else {
                                assert(ps[pend[i] as int] == Some(p));
                            }
                        }
                    }
                }
            },
            None => {},
        }
        self.prior = None;
        self.stopped = false;
        proof {
            let ps = g.parent_seq();
            assert(self.inv());
        }
    }

    /// Moves on: puts the children of the node last returned on the frontier
    /// (unless its subtree was stopped) and returns the next node, or `None`
    /// once nothing is left.
    pub fn next(&mut self, g: &StackGraph) -> (r: Option<usize>)
        requires
            g.wf(),
            old(self).inv(),
            old(self).shape() == g.parent_seq(),
        ensures
            final(self).inv(),
            final(self).shape() == old(self).shape(),
            final(self).start_node() == old(self).start_node(),
            final(self).stopped_set() == old(self).stopped_set(),
            final(self).current() == r,
            r is None ==> final(self).visited() == old(self).visited() && final(self).is_done(),
            r matches Some(x) ==> {
                &&& final(self).visited() == old(self).visited().push(x)
                &&& x < g.node_count()
                &&& is_ancestor(g.parent_seq(), old(self).start_node(), x as int)
                &&& !old(self).visited().contains(x)
                &&& g.parent_seq()[x as int] == Some(old(self).start_node() as usize)
                    || old(self).visited().contains(g.parent_seq()[x as int]->0)
                &&& forall|s: usize| #[trigger] old(self).stopped_set().contains(s) ==> !is_ancestor(g.parent_seq(), s as int, x as int)
            },
    {
        let ghost ps = g.parent_seq();
        let ghost st = self.start as int;
        self.expand(g);
        let ghost mid = *self;
        match self.pending.pop() {
            None => None,
            Some(x) => {
                self.yielded = Ghost(self.yielded@.push(x));
                self.prior = Some(x);
                proof {
                    let pend = self.pending@;
                    let ys = self.yielded@;
                    let mpend = mid.pending@;
                    let mys = mid.yielded@;
                    assert(mpend.last() == x);
                    assert(mpend.contains(x));
                    assert(!mys.contains(x));
                    assert(pend =~= mpend.drop_last());
                    assert(is_ancestor(ps, st, x as int));
                    assert forall|q: usize| #[trigger] ys.contains(q) <==> mys.contains(q) || q == x by {
                        if ys.contains(q) && q != x {
                            let w = choose|w: int| 0 <= w < ys.len() && ys[w] == q;
                            assert(mys[w] == q);
                        }
                        if mys.contains(q) {
                            let w = choose|w: int| 0 <= w < mys.len() && mys[w] == q;
                            assert(ys[w] == q);
                        }
                        if q == x {
                            assert(ys[mys.len() as int] == x);
                        }
                    }
                    assert forall|q: usize| #[trigger] pend.contains(q) <==> mpend.contains(q) && q != x by {
                        if pend.contains(q) {
                            let w = choose|w: int| 0 <= w < pend.len() && pend[w] == q;
                            assert(mpend[w] == q);
                        }
                        if mpend.contains(q) && q != x {
                            let w = choose|w: int| 0 <= w < mpend.len() && mpend[w] == q;
                            assert(w != mpend.len() - 1);
                            assert(pend[w] == q);
                        }
                    }
                    assert(ps[x as int] == Some(st as usize) || mid.expanded@.contains(ps[x as int]->0));
                    assert(parents_first(ps, st, ys)) by {
                        assert forall|k: int| 0 <= k < ys.len() implies ps[#[trigger] ys[k] as int] == Some(st as usize) || exists|j: int|
                            0 <= j < k && ys[j] == ps[ys[k] as int]->0 by {
                            if k < mys.len() {
                                assert(ys[k] == mys[k]);
                                if ps[mys[k] as int] != Some(st as usize) {
                                    let j = choose|j: int| 0 <= j < k && mys[j] == ps[mys[k] as int]->0;
                                    assert(ys[j] == mys[j]);
                                }
                            } else {
                                if ps[x as int] != Some(st as usize) {
                                    let par = ps[x as int]->0;
                                    assert(mys.contains(par));
                                    let j = choose|j: int| 0 <= j < mys.len() && mys[j] == par;
                                    assert(ys[j] == mys[j]);
                                }
                            }
                        }
                    }
                    assert forall|k: int, s: usize| 0 <= k < ys.len() && #[trigger] self.stops@.contains(s) implies !is_ancestor(ps, s as int, #[trigger] ys[k] as int) by {
                        if k < mys.len() {
                            assert(ys[k] == mys[k]);
                        } else {
                            assert(mpend[mpend.len() - 1] == x);
                        }
                    }
                    assert forall|k: int| 0 <= k < ys.len() implies (#[trigger] ys[k] as int) < ps.len() && is_ancestor(ps, st, ys[k] as int) by {
                        if k < mys.len() {
                            assert(ys[k] == mys[k]);
                        }
                    }
                    assert forall|i: int| 0 <= i < pend.len() implies (#[trigger] pend[i] as int) < ps.len() && is_ancestor(ps, st, pend[i] as int) by {
                        assert(pend[i] == mpend[i]);
                    }
                    assert forall|i: int, s: usize| 0 <= i < pend.len() && #[trigger] self.stops@.contains(s) implies !is_ancestor(ps, s as int, #[trigger] pend[i] as int) by {
                        assert(pend[i] == mpend[i]);
                    }
                    assert(ys.no_duplicates()) by {
                        assert forall|i: int, j: int| 0 <= i < ys.len() && 0 <= j < ys.len() && i != j implies ys[i] != ys[j] by {
                            if i < mys.len() && j < mys.len() {
                                assert(ys[i] == mys[i] && ys[j] == mys[j]);
                            } else if i < mys.len() {
                                assert(mys.contains(ys[i]));
                            } else if j < mys.len() {
                                assert(mys.contains(ys[j]));
                            }
                        }
                    }
                    assert(pend.no_duplicates()) by {
                        assert forall|i: int, j: int| 0 <= i < pend.len() && 0 <= j < pend.len() && i != j implies pend[i] != pend[j] by {
                            assert(pend[i] == mpend[i] && pend[j] == mpend[j]);
                        }
                    }
                }
                Some(x)
            },
        }
    }
}

impl Cursor {
    /// Prunes the walk below the node last returned by `next`: none of its
    /// descendants is returned afterwards, while the rest of the walk goes on.
    pub fn stop(&mut self)
        requires
            old(self).inv(),
        ensures
            final(self).inv(),
            final(self).shape() == old(self).shape(),
            final(self).start_node() == old(self).start_node(),
            final(self).visited() == old(self).visited(),
            final(self).current() == old(self).current(),
            final(self).stopped_set() == (match old(self).current() {
                Some(p) => old(self).stopped_set().insert(p),
                None => old(self).stopped_set(),
            }),
    {
        match self.prior {
            Some(p) => {
                if self.stopped {
                    assert(self.stops@.insert(p) =~= self.stops@);
                } else {
                    let ghost old_stops = self.stops@;
                    self.stops = Ghost(self.stops@.insert(p));
                    self.stopped = true;
                    proof {
                        let ps = self.graph_shape@;
                        let st = self.start as int;
                        let ys = self.yielded@;
                        let pend = self.pending@;
                        let last = ys.len() - 1;
                        assert(ys[last] == p);
                        assert(is_ancestor(ps, st, p as int));
                        lemma_ancestor_precedes(ps, st, p as int);
                        assert forall|k: int| 0 <= k < ys.len() implies !is_ancestor(ps, p as int, #[trigger] ys[k] as int) by {
                            if is_ancestor(ps, p as int, ys[k] as int) {
                                lemma_ancestor_earlier(ps, st, ys, k, p as int);
                                let j = choose|j: int| 0 <= j < k && ys[j] as int == p as int;
                                assert(ys[j] == ys[last]);
                            }
                        }
                        assert forall|k: int, s: usize| 0 <= k < ys.len() && #[trigger] self.stops@.contains(s) implies !is_ancestor(ps, s as int, #[trigger] ys[k] as int) by {
                            if s != p {
                                assert(old_stops.contains(s));
                            }
                        }
                        assert forall|i: int, s: usize| 0 <= i < pend.len() && #[trigger] self.stops@.contains(s) implies !is_ancestor(ps, s as int, #[trigger] pend[i] as int) by {
                            if s != p {
                                assert(old_stops.contains(s));
                            } else {
                                let x = pend[i] as int;
                                assert(pend.contains(pend[i]));
                                assert(is_ancestor(ps, st, x));
                                let y = ps[x]->0;
                                if ps[x] != Some(st as usize) {
                                    assert(self.expanded@.contains(y));
                                    assert(ys.contains(y));
                                    let k = choose|k: int| 0 <= k < ys.len() && ys[k] == y;
                                    assert(!is_ancestor(ps, p as int, ys[k] as int));
                                } else if is_ancestor(ps, p as int, st) {
                                    lemma_ancestor_precedes(ps, p as int, st);
                                }
                            }
                        }
                        assert(self.inv());
                    }
                }
            },
            None => {},
        }
    }
}

/// A walk never returns a node before its ancestors: every ancestor below
/// the start of each returned node was returned at an earlier step.
pub proof fn lemma_ancestors_first(c: &Cursor)
    requires
        c.inv(),
    ensures
        forall|k: int, a: int|
            0 <= k < c.visited().len() && is_ancestor(c.shape(), c.start_node(), a) && #[trigger] is_ancestor(
                c.shape(),
                a,
                #[trigger] c.visited()[k] as int,
            ) ==> exists|j: int| 0 <= j < k && c.visited()[j] as int == a,
{
    assert forall|k: int, a: int|
        0 <= k < c.visited().len() && is_ancestor(c.shape(), c.start_node(), a) && #[trigger] is_ancestor(
            c.shape(),
            a,
            #[trigger] c.visited()[k] as int,
        ) implies exists|j: int| 0 <= j < k && c.visited()[j] as int == a by {
        lemma_ancestor_earlier(c.shape(), c.start_node(), c.visited(), k, a);
    }
}

/// Once `stop` has pruned a node, the walk never returns a descendant of it.
pub proof fn lemma_stopped_subtrees_pruned(c: &Cursor)
    requires
        c.inv(),
    ensures
        forall|k: int, s: usize|
            0 <= k < c.visited().len() && #[trigger] c.stopped_set().contains(s) ==> !is_ancestor(
                c.shape(),
                s as int,
                #[trigger] c.visited()[k] as int,
            ),
{
}

proof fn lemma_reached(c: &Cursor, d: int)
    requires
        c.inv(),
        c.is_done(),
        0 <= d < c.shape().len(),
        is_ancestor(c.shape(), c.start_node(), d),
        forall|s: usize| #[trigger] c.stopped_set().contains(s) ==> !is_ancestor(c.shape(), s as int, d),
    ensures
        c.visited().contains(d as usize),
    decreases d,
{
    let ps = c.shape();
    let st = c.start_node();
    let pd = ps[d]->0;
    assert(ps[d] is Some);
    if pd as int != st {
        assert(pd < d);
        assert(is_ancestor(ps, st, pd as int));
        assert forall|s: usize| #[trigger] c.stopped_set().contains(s) implies !is_ancestor(ps, s as int, pd as int) by {
            if is_ancestor(ps, s as int, pd as int) {
                assert(is_ancestor(ps, s as int, d));
            }
        }
        lemma_reached(c, pd as int);
        assert(c.yielded@.contains(pd));
        if c.stops@.contains(pd) {
            assert(c.stopped_set().contains(pd));
            assert(is_ancestor(ps, pd as int, d));
        }
        assert(c.expanded@.contains(pd));
    }
}

/// A walk that has run out has returned every node below its start that lies
/// under no pruned node: pruning one subtree leaves the others whole.
pub proof fn lemma_walk_complete(c: &Cursor)
    requires
        c.inv(),
        c.is_done(),
    ensures
        forall|d: int|
            0 <= d < c.shape().len() && #[trigger] is_ancestor(c.shape(), c.start_node(), d) && (forall|s: usize|
                #[trigger] c.stopped_set().contains(s) ==> !is_ancestor(c.shape(), s as int, d)) ==> c.visited().contains(
                d as usize,
            ),
{
    assert forall|d: int|
        0 <= d < c.shape().len() && #[trigger] is_ancestor(c.shape(), c.start_node(), d) && (forall|s: usize|
            #[trigger] c.stopped_set().contains(s) ==> !is_ancestor(c.shape(), s as int, d)) implies c.visited().contains(
        d as usize,
    ) by {
        lemma_reached(c, d);
    }
}

} // verus!
