use vstd::prelude::*;

verus! {

/// `ps` is a tree over `0..ps.len()`: node 0 is the single root and every
/// other node names exactly one parent, which was inserted before it.
pub open spec fn is_tree(ps: Seq<Option<usize>>) -> bool {
    &&& ps.len() >= 1
    &&& ps[0] is None
    &&& forall|i: int| 1 <= i < ps.len() ==> (#[trigger] ps[i]) is Some && (ps[i]->0 as int) < i
}

/// `a` is a proper ancestor of `n`: `a` is reached from `n` by following
/// parent links at least once.
pub open spec fn is_ancestor(ps: Seq<Option<usize>>, a: int, n: int) -> bool
    decreases n,
{
    if 0 <= n < ps.len() {
        match ps[n] {
            Some(p) => p as int == a || (p < n && is_ancestor(ps, a, p as int)),
            None => false,
        }
    } else {
        false
    }
}

/// In a tree an ancestor always precedes its descendant.
pub proof fn lemma_ancestor_precedes(ps: Seq<Option<usize>>, a: int, n: int)
    requires
        is_tree(ps),
        is_ancestor(ps, a, n),
    ensures
        0 <= a < n,
    decreases n,
{
    let p = ps[n]->0 as int;
    assert(ps[n] is Some && p < n);
    if p != a {
        lemma_ancestor_precedes(ps, a, p);
    }
}

/// In a tree the root is an ancestor of every other node.
pub proof fn lemma_root_reaches(ps: Seq<Option<usize>>, n: int)
    requires
        is_tree(ps),
        1 <= n < ps.len(),
    ensures
        is_ancestor(ps, 0, n),
    decreases n,
{
    let p = ps[n]->0 as int;
    assert(ps[n] is Some && p < n);
    if p != 0 {
        lemma_root_reaches(ps, p);
    }
}

/// The commits of a stack, kept as a tree rooted at the merge-base.
///
/// Nodes are numbered in insertion order; node 0 is the merge-base. Branch
/// labels are kept as a list of (node, name, protected) entries.
pub struct StackGraph {
    ids: Vec<Vec<u8>>,
    summaries: Vec<String>,
    parents: Vec<Option<usize>>,
    redundant: Vec<bool>,
    branch_nodes: Vec<usize>,
    branch_names: Vec<String>,
    branch_protected: Vec<bool>,
}

impl StackGraph {
    /// The parent link of every node.
    pub closed spec fn parent_seq(&self) -> Seq<Option<usize>> {
        self.parents@
    }

    /// The commit identifier of every node.
    pub closed spec fn id_seq(&self) -> Seq<Seq<u8>> {
        self.ids@.map_values(|v: Vec<u8>| v@)
    }

    /// The one-line summary of every node's commit.
    pub closed spec fn summary_seq(&self) -> Seq<Seq<char>> {
        self.summaries@.map_values(|v: String| v@)
    }

    /// The name of each branch label.
    pub closed spec fn label_names(&self) -> Seq<Seq<char>> {
        self.branch_names@.map_values(|v: String| v@)
    }

    /// No two nodes hold the same commit.
    pub open spec fn ids_distinct(&self) -> bool {
        forall|i: int, j: int|
            0 <= i < self.node_count() && 0 <= j < self.node_count() && i != j ==> #[trigger] self.id_seq()[i]
                != #[trigger] self.id_seq()[j]
    }

    /// Whether each node's changes are already upstream.
    pub closed spec fn redundant_seq(&self) -> Seq<bool> {
        self.redundant@
    }

    /// The node that each branch label is attached to.
    pub closed spec fn label_nodes(&self) -> Seq<usize> {
        self.branch_nodes@
    }

    /// Whether each branch label is protected.
    pub closed spec fn label_protected(&self) -> Seq<bool> {
        self.branch_protected@
    }

    pub open spec fn node_count(&self) -> int {
        self.parent_seq().len() as int
    }

    pub closed spec fn sizes_agree(&self) -> bool {
        &&& self.ids@.len() == self.parents@.len()
        &&& self.summaries@.len() == self.parents@.len()
        &&& self.redundant@.len() == self.parents@.len()
        &&& self.branch_names@.len() == self.branch_nodes@.len()
        &&& self.summaries@.len() == self.parents@.len()
        &&& self.branch_protected@.len() == self.branch_nodes@.len()
        &&& forall|k: int|
            0 <= k < self.branch_nodes@.len() ==> (#[trigger] self.branch_nodes@[k]) < self.parents@.len()
    }

    pub open spec fn wf(&self) -> bool {
        &&& is_tree(self.parent_seq())
        &&& self.id_seq().len() == self.node_count()
        &&& self.node_count() <= usize::MAX
        &&& self.label_nodes().len() == self.label_protected().len()
        &&& self.redundant_seq().len() == self.node_count()
        &&& forall|k: int|
            0 <= k < self.label_nodes().len() ==> (#[trigger] self.label_nodes()[k]) < self.node_count()
        &&& self.sizes_agree()
    }

    /// A graph holding only the merge-base `root_id`.
    pub fn new(root_id: Vec<u8>, root_summary: String) -> (g: StackGraph)
        ensures
            g.wf(),
            g.ids_distinct(),
            g.id_seq() == seq![root_id@],
            g.summary_seq() == seq![root_summary@],
            g.parent_seq() == seq![None::<usize>],
            g.redundant_seq() == seq![false],
            g.label_nodes().len() == 0,
    {
        let g = StackGraph {
            ids: vec![root_id],
            summaries: vec![root_summary],
            parents: vec![None],
            redundant: vec![false],
            branch_nodes: Vec::new(),
            branch_names: Vec::new(),
            branch_protected: Vec::new(),
        };
        assert(g.parents@ =~= seq![None::<usize>]);
        assert(g.id_seq() =~= seq![root_id@]);
        assert(g.summary_seq() =~= seq![root_summary@]);
        g
    }

    /// Adds commit `id` as a child of node `parent`; returns the new node.
    pub fn insert(&mut self, parent: usize, id: Vec<u8>, summary: String) -> (n: usize)
        requires
            old(self).wf(),
            parent < old(self).node_count(),
        ensures
            final(self).wf(),
            n == old(self).node_count(),
            final(self).parent_seq() == old(self).parent_seq().push(Some(parent)),
            final(self).id_seq() == old(self).id_seq().push(id@),
            final(self).summary_seq() == old(self).summary_seq().push(summary@),
            final(self).label_names() == old(self).label_names(),
            final(self).redundant_seq() == old(self).redundant_seq().push(false),
            final(self).label_nodes() == old(self).label_nodes(),
            final(self).label_protected() == old(self).label_protected(),
    {
        let n = self.parents.len();
        let ghost idv = id@;
        let ghost sv = summary@;
        self.ids.push(id);
        assert(self.id_seq() =~= old(self).id_seq().push(idv));
        self.summaries.push(summary);
        assert(self.summary_seq() =~= old(self).summary_seq().push(sv));
        self.parents.push(Some(parent));
        self.redundant.push(false);
        let m = self.parents.len();
        assert(m == self.parents@.len());
        proof {
            let ps = self.parents@;
            assert forall|i: int| 1 <= i < ps.len() implies (#[trigger] ps[i]) is Some && (ps[i]->0 as int) < i by {
                if i < n {
                    assert(ps[i] == old(self).parents@[i]);
                }
            }
        }
        n
    }

    /// Attaches the branch `name` to node `node`.
    pub fn attach_branch(&mut self, node: usize, name: String, protected: bool)
        requires
            old(self).wf(),
            node < old(self).node_count(),
        ensures
            final(self).wf(),
            final(self).summary_seq() == old(self).summary_seq(),
            final(self).label_names() == old(self).label_names().push(name@),
            final(self).id_seq() == old(self).id_seq(),
            final(self).parent_seq() == old(self).parent_seq(),
            final(self).redundant_seq() == old(self).redundant_seq(),
            final(self).label_nodes() == old(self).label_nodes().push(node),
            final(self).label_protected() == old(self).label_protected().push(protected),
    {
        let ghost nv = name@;
        self.branch_nodes.push(node);
        self.branch_names.push(name);
        assert(self.label_names() =~= old(self).label_names().push(nv));
        self.branch_protected.push(protected);
        proof {
            assert forall|k: int| 0 <= k < self.branch_nodes@.len() implies (#[trigger] self.branch_nodes@[k]) < self.parents@.len() by {
                if k < old(self).branch_nodes@.len() {
                    assert(self.branch_nodes@[k] == old(self).branch_nodes@[k]);
                }
            }
        }
    }

    /// Records that node `node` holds nothing that is not already upstream.
    pub fn mark_redundant(&mut self, node: usize)
        requires
            old(self).wf(),
            node < old(self).node_count(),
        ensures
            final(self).wf(),
            final(self).summary_seq() == old(self).summary_seq(),
            final(self).label_names() == old(self).label_names(),
            final(self).id_seq() == old(self).id_seq(),
            final(self).parent_seq() == old(self).parent_seq(),
            final(self).redundant_seq() == old(self).redundant_seq().update(node as int, true),
            final(self).label_nodes() == old(self).label_nodes(),
            final(self).label_protected() == old(self).label_protected(),
    {
        self.redundant.set(node, true);
    }

    pub fn len(&self) -> (r: usize)
        requires
            self.wf(),
        ensures
            r == self.node_count(),
    {
        self.parents.len()
    }

    /// The merge-base every node descends from.
    pub fn root(&self) -> (r: usize)
        ensures
            r == 0,
    {
        0
    }

    pub fn parent(&self, node: usize) -> (r: Option<usize>)
        requires
            self.wf(),
            node < self.node_count(),
        ensures
            r == self.parent_seq()[node as int],
    {
        self.parents[node]
    }

    pub fn commit_id(&self, node: usize) -> (r: &Vec<u8>)
        requires
            self.wf(),
            node < self.node_count(),
        ensures
            r@ == self.id_seq()[node as int],
    {
        &self.ids[node]
    }

    pub fn summary(&self, node: usize) -> (r: &String)
        requires
            self.wf(),
            node < self.node_count(),
        ensures
            r@ == self.summary_seq()[node as int],
    {
        &self.summaries[node]
    }

    pub fn is_redundant(&self, node: usize) -> (r: bool)
        requires
            self.wf(),
            node < self.node_count(),
        ensures
            r == self.redundant_seq()[node as int],
    {
        self.redundant[node]
    }

    pub fn branch_count(&self) -> (r: usize)
        requires
            self.wf(),
        ensures
            r == self.label_nodes().len(),
    {
        self.branch_nodes.len()
    }

    pub fn branch_node(&self, k: usize) -> (r: usize)
        requires
            self.wf(),
            k < self.label_nodes().len(),
        ensures
            r == self.label_nodes()[k as int],
    {
        self.branch_nodes[k]
    }

    pub fn branch_name(&self, k: usize) -> (r: &String)
        requires
            self.wf(),
            k < self.label_nodes().len(),
        ensures
            r@ == self.label_names()[k as int],
    {
        &self.branch_names[k]
    }

    pub fn branch_is_protected(&self, k: usize) -> (r: bool)
        requires
            self.wf(),
            k < self.label_nodes().len(),
        ensures
            r == self.label_protected()[k as int],
    {
        self.branch_protected[k]
    }
}

/// Byte-for-byte equality of two commit identifiers.
fn same_bytes(a: &Vec<u8>, b: &Vec<u8>) -> (r: bool)
    ensures
        r == (a@ == b@),
{
    if a.len() != b.len() {
        return false;
    }
    let mut i: usize = 0;
    while i < a.len()
        invariant
            a@.len() == b@.len(),
            i <= a@.len(),
            forall|j: int| 0 <= j < i ==> a@[j] == b@[j],
        decreases a.len() - i,
    {
        if a[i] != b[i] {
            return false;
        }
        i = i + 1;
    }
    assert(a@ =~= b@);
    true
}

fn copy_bytes(a: &Vec<u8>) -> (r: Vec<u8>)
    ensures
        r@ == a@,
{
    let mut r: Vec<u8> = Vec::new();
    let mut i: usize = 0;
    while i < a.len()
        invariant
            i <= a@.len(),
            r@ == a@.subrange(0, i as int),
        decreases a.len() - i,
    {
        r.push(a[i]);
        i = i + 1;
        assert(r@ =~= a@.subrange(0, i as int));
    }
    assert(a@.subrange(0, a@.len() as int) =~= a@);
    r
}

/// A commit as read from the repository.
pub struct CommitInfo {
    pub id: Vec<u8>,
    pub summary: String,
}

/// A branch that builds on the merge-base: its first-parent history from its
/// tip (first) down to, not including, the merge-base.
pub struct BranchWalk {
    pub name: String,
    pub protected: bool,
    pub chain: Vec<CommitInfo>,
}

/// The commit a branch points at: the head of its chain, or the merge-base
/// for an empty chain.
pub open spec fn tip_of(base: Seq<u8>, b: BranchWalk) -> Seq<u8> {
    if b.chain@.len() == 0 {
        base
    } else {
        b.chain@[0].id@
    }
}

impl StackGraph {
    /// The node that holds commit `id`, if any.
    pub fn find(&self, id: &Vec<u8>) -> (r: Option<usize>)
        requires
            self.wf(),
        ensures
            r matches Some(i) ==> i < self.node_count() && self.id_seq()[i as int] == id@,
            r is None ==> forall|i: int| 0 <= i < self.node_count() ==> #[trigger] self.id_seq()[i] != id@,
    {
        let n = self.ids.len();
        let mut i: usize = 0;
        while i < n
            invariant
                self.wf(),
                n == self.node_count(),
                i <= n,
                forall|j: int| 0 <= j < i ==> #[trigger] self.id_seq()[j] != id@,
            decreases n - i,
        {
            if same_bytes(&self.ids[i], id) {
                return Some(i);
            }
            i = i + 1;
        }
        None
    }

    /// Builds the graph of a stack: each branch's history is walked from its
    /// tip down to the first commit already in the graph (or the merge-base),
    /// and the commits above it are added in order, parents first. Each
    /// commit is held by one node, and each branch labels the node of its tip.
    pub fn from_branches(base: &CommitInfo, branches: &Vec<BranchWalk>) -> (g: StackGraph)
        ensures
            g.wf(),
            g.ids_distinct(),
            g.id_seq()[0] == base.id@,
            g.label_nodes().len() == branches@.len(),
            forall|k: int|
                0 <= k < branches@.len() ==> g.id_seq()[#[trigger] g.label_nodes()[k] as int] == tip_of(
                    base.id@,
                    branches@[k],
                ) && g.label_protected()[k] == branches@[k].protected && g.label_names()[k] == branches@[k].name@,
    {
        let mut g = StackGraph::new(copy_bytes(&base.id), base.summary.clone());
        let mut k: usize = 0;
        while k < branches.len()
            invariant
                k <= branches@.len(),
                g.wf(),
                g.ids_distinct(),
                g.id_seq()[0] == base.id@,
                g.label_nodes().len() == k,
                forall|q: int|
                    0 <= q < k ==> g.id_seq()[#[trigger] g.label_nodes()[q] as int] == tip_of(base.id@, branches@[q])
                        && g.label_protected()[q] == branches@[q].protected && g.label_names()[q] == branches@[q].name@,
            decreases branches@.len() - k,
        {
            let branch = &branches[k];
            let chain = &branch.chain;
            let mut j: usize = 0;
            let mut anchor: Option<usize> = None;
            while j < chain.len() && anchor.is_none()
                invariant
                    g.wf(),
                    j <= chain@.len(),
                    anchor matches Some(a) ==> a < g.node_count() && j < chain@.len() && g.id_seq()[a as int]
                        == chain@[j as int].id@,
                decreases chain@.len() - j, if anchor is None { 1int } else { 0int },
            {
                anchor = g.find(&chain[j].id);
                if anchor.is_none() {
                    j = j + 1;
                }
            }
            let mut parent: usize = match anchor {
                Some(a) => a,
                None => 0,
            };
            let ghost labels = g.label_nodes();
            let ghost prot = g.label_protected();
            let ghost names = g.label_names();
            let ghost ids0 = g.id_seq();
            let mut t: usize = j;
            while t > 0
                invariant
                    g.wf(),
                    g.ids_distinct(),
                    g.id_seq()[0] == base.id@,
                    t <= j <= chain@.len(),
                    parent < g.node_count(),
                    t < j ==> g.id_seq()[parent as int] == chain@[t as int].id@,
                    t == j ==> (anchor matches Some(a) && parent == a) || (anchor is None && parent == 0),
                    anchor matches Some(a) ==> j < chain@.len() && g.id_seq()[a as int] == chain@[j as int].id@,
                    anchor is None ==> j == chain@.len(),
                    g.label_nodes() == labels,
                    g.label_protected() == prot,
                    g.label_names() == names,
                    ids0.len() <= g.id_seq().len(),
                    forall|i: int| 0 <= i < ids0.len() ==> #[trigger] g.id_seq()[i] == ids0[i],
                    anchor matches Some(a) ==> a < ids0.len(),
                decreases t,
            {
                t = t - 1;
                match g.find(&chain[t].id) {
                    Some(x) => {
                        parent = x;
                    },
                    None => {
                        let ghost before = g.id_seq();
                        parent = g.insert(parent, copy_bytes(&chain[t].id), chain[t].summary.clone());
                        proof {
                            let after = g.id_seq();
                            assert forall|a: int, b: int|
                                0 <= a < g.node_count() && 0 <= b < g.node_count() && a != b implies #[trigger] after[a]
                                    != #[trigger] after[b] by {
                                if a < before.len() && b < before.len() {
                                    assert(after[a] == before[a] && after[b] == before[b]);
                                } else if a < before.len() {
                                    assert(after[a] == before[a]);
                                } else {
                                    assert(after[b] == before[b]);
                                }
                            }
                        }
                    },
                }
            }
            let ghost before = g.id_seq();
            g.attach_branch(parent, branch.name.clone(), branch.protected);
            proof {
                assert(g.id_seq()[parent as int] == tip_of(base.id@, branches@[k as int]));
                assert forall|q: int|
                    0 <= q < k + 1 implies g.id_seq()[#[trigger] g.label_nodes()[q] as int] == tip_of(
                        base.id@,
                        branches@[q],
                    ) && g.label_protected()[q] == branches@[q].protected && g.label_names()[q] == branches@[q].name@ by {
                    if q < k {
                        assert(g.label_nodes()[q] == labels[q]);
                        assert(ids0[labels[q] as int] == g.id_seq()[labels[q] as int]);
                    }
                }
            }
            k = k + 1;
        }
        g
    }
}

/// Every constructed graph has exactly one root, node 0; every other node
/// has exactly one parent, which lies in the graph; the root reaches every
/// node; and no node is its own ancestor.
pub proof fn lemma_single_root(g: &StackGraph)
    requires
        g.wf(),
    ensures
        g.parent_seq()[0] is None,
        forall|i: int| 1 <= i < g.node_count() ==> (#[trigger] g.parent_seq()[i]) is Some
            && (g.parent_seq()[i]->0 as int) < g.node_count(),
        forall|i: int| 1 <= i < g.node_count() ==> #[trigger] is_ancestor(g.parent_seq(), 0, i),
        forall|n: int| !(#[trigger] is_ancestor(g.parent_seq(), n, n)),
{
    let ps = g.parent_seq();
    assert forall|i: int| 1 <= i < g.node_count() implies #[trigger] is_ancestor(ps, 0, i) by {
        lemma_root_reaches(ps, i);
    }
    assert forall|n: int| !(#[trigger] is_ancestor(ps, n, n)) by {
        if is_ancestor(ps, n, n) {
            lemma_ancestor_precedes(ps, n, n);
        }
    }
}

} // verus!
