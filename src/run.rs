use vstd::prelude::*;

use crate::cursor::{Cursor, lemma_stopped_subtrees_pruned, lemma_walk_complete};
use crate::graph::{is_ancestor, StackGraph};

verus! {

/// The options of one run of a command across the stack.
pub struct RunArgs {
    /// The command and its arguments.
    pub command: Vec<String>,
    /// Keep going on failure.
    pub no_fail_fast: bool,
    /// Stop below a failure (the default).
    pub fail_fast: bool,
    /// Switch to the first commit that failed.
    pub switch: bool,
    /// Don't actually switch.
    pub dry_run: bool,
}

/// A short name under which a subcommand is offered.
pub struct Alias {
    pub alias: &'static str,
    pub action: &'static str,
    pub action_base: &'static str,
}

/// Reads a pair of opposite flags: `Some(true)` for `yes`, `Some(false)` for
/// `no`, `None` when neither was given. The two are never given together.
pub fn resolve_bool_arg(yes: bool, no: bool) -> (r: Option<bool>)
    requires
        !(yes && no),
    ensures
        r == (if yes {
            Some(true)
        } else if no {
            Some(false)
        } else {
            None
        }),
{
    match (yes, no) {
        (true, false) => Some(true),
        (false, true) => Some(false),
        _ => None,
    }
}

impl RunArgs {
    /// The short name `run` for `stack run`.
    pub fn alias() -> (a: Alias)
        ensures
            a.alias@ == "run"@,
            a.action@ == "stack run"@,
            a.action_base@ == "stack run"@,
    {
        let alias = "run";
        let action = "stack run";
        Alias { alias, action, action_base: action }
    }

    /// Whether a failure prunes the commits that build on it: yes unless
    /// `--no-fail-fast` was given.
    pub fn fail_fast(&self) -> (r: bool)
        requires
            !(self.fail_fast && self.no_fail_fast),
        ensures
            r == !self.no_fail_fast,
    {
        match resolve_bool_arg(self.fail_fast, self.no_fail_fast) {
            Some(b) => b,
            None => true,
        }
    }
}

/// What to do about a dirty working tree before the walk starts.
#[derive(Clone, Copy, Debug, PartialEq, Eq, Structural)]
pub enum DirtyVerdict {
    Proceed,
    /// Report the dirty tree and go on (dry run).
    Warn,
    /// Refuse to start.
    Abort,
}

pub open spec fn stash_planned(dry_run: bool, switch: bool) -> bool {
    !dry_run && !switch
}

pub open spec fn dirty_verdict_of(dry_run: bool, dirty: bool) -> DirtyVerdict {
    if !dirty {
        DirtyVerdict::Proceed
    } else if dry_run {
        DirtyVerdict::Warn
    } else {
        DirtyVerdict::Abort
    }
}

/// Whether uncommitted changes are stashed before the walk: only when the
/// tree will really move and the run will come back to where it started.
pub fn should_stash(dry_run: bool, switch: bool) -> (r: bool)
    ensures
        r == stash_planned(dry_run, switch),
{
    !dry_run && !switch
}

/// The verdict on a working tree found dirty (after any stash).
pub fn dirty_verdict(dry_run: bool, dirty: bool) -> (r: DirtyVerdict)
    ensures
        r == dirty_verdict_of(dry_run, dirty),
{
    if !dirty {
        DirtyVerdict::Proceed
    } else if dry_run {
        DirtyVerdict::Warn
    } else {
        DirtyVerdict::Abort
    }
}

/// The first node, in visiting order, whose command failed.
pub open spec fn first_failure_of(visited: Seq<usize>, results: Seq<bool>) -> Option<usize>
    decreases results.len(),
{
    if results.len() == 0 {
        None
    } else {
        let n = results.len() - 1;
        let earlier = first_failure_of(visited, results.take(n));
        if earlier is Some {
            earlier
        } else if !results[n] {
            Some(visited[n])
        } else {
            None
        }
    }
}

pub open spec fn all_passed(results: Seq<bool>) -> bool {
    forall|k: int| 0 <= k < results.len() ==> #[trigger] results[k]
}

/// The nodes whose command failed.
pub open spec fn failed_nodes(visited: Seq<usize>, results: Seq<bool>) -> Set<usize> {
    Set::new(|s: usize| exists|k: int| 0 <= k < results.len() && !results[k] && visited[k] == s)
}

proof fn lemma_first_failure_none(visited: Seq<usize>, results: Seq<bool>)
    ensures
        first_failure_of(visited, results) is None <==> all_passed(results),
    decreases results.len(),
{
    if results.len() > 0 {
        let n = results.len() - 1;
        let pre = results.take(n);
        lemma_first_failure_none(visited, pre);
        if all_passed(results) {
            assert forall|k: int| 0 <= k < pre.len() implies #[trigger] pre[k] by {
                assert(results[k]);
            }
        }
        if all_passed(pre) && results[n] {
            assert forall|k: int| 0 <= k < results.len() implies #[trigger] results[k] by {
                if k < n {
                    assert(pre[k]);
                }
            }
        }
    }
}

/// The next node to run the command on.
#[derive(Clone, Copy, Debug, PartialEq, Eq, Structural)]
pub struct Visit {
    pub node: usize,
    /// Whether to check the node's commit out first (not on a dry run).
    pub checkout: bool,
}

/// Where the working tree ends up once the walk is over.
#[derive(Clone, Copy, Debug, PartialEq, Eq, Structural)]
pub enum Landing {
    /// Stay on the commit of this node, the first that failed.
    AtFailure(usize),
    /// Go back to the branch that was checked out.
    RestoreBranch,
    /// Go back to the commit that was checked out (detached head).
    RestoreCommit,
}

/// The last steps of a run and its overall outcome.
#[derive(Clone, Copy, Debug, PartialEq, Eq, Structural)]
pub struct Wrapup {
    pub landing: Landing,
    /// Whether the working tree is really moved (not on a dry run).
    pub checkout: bool,
    /// Whether the stash taken at the start is popped.
    pub pop_stash: bool,
    /// Whether every command passed.
    pub success: bool,
}

pub open spec fn wrapup_of(
    success: bool,
    first_failure: Option<usize>,
    head: Option<usize>,
    on_branch: bool,
    switch: bool,
    dry_run: bool,
    stashed: bool,
) -> Wrapup {
    if !success && switch && first_failure is Some && first_failure != head {
        Wrapup {
            landing: Landing::AtFailure(first_failure->0),
            checkout: !dry_run,
            pop_stash: false,
            success,
        }
    } else {
        Wrapup {
            landing: if on_branch {
                Landing::RestoreBranch
            } else {
                Landing::RestoreCommit
            },
            checkout: !dry_run,
            pop_stash: stashed,
            success,
        }
    }
}

/// The decisions of one run of a command over the stack: which node comes
/// next, what a result does to the rest of the walk, and where to land.
///
/// The caller checks out, runs the command and hands back whether it passed.
pub struct Cascade {
    cursor: Cursor,
    fail_fast: bool,
    dry_run: bool,
    awaiting: bool,
    current: usize,
    success: bool,
    first_failure: Option<usize>,
    results: Ghost<Seq<bool>>,
}

impl Cascade {
    pub closed spec fn walk(&self) -> Cursor {
        self.cursor
    }

    /// Whether each finished command passed, in visiting order.
    pub closed spec fn result_seq(&self) -> Seq<bool> {
        self.results@
    }

    pub closed spec fn is_fail_fast(&self) -> bool {
        self.fail_fast
    }

    pub closed spec fn is_dry_run(&self) -> bool {
        self.dry_run
    }

    /// A node was handed out and its result is not in yet.
    pub closed spec fn is_awaiting(&self) -> bool {
        self.awaiting
    }

    pub open spec fn visited(&self) -> Seq<usize> {
        self.walk().visited()
    }

    pub closed spec fn inv(&self) -> bool {
        let vs = self.cursor.visited();
        let rs = self.results@;
        &&& self.cursor.inv()
        &&& if self.awaiting {
            &&& vs.len() == rs.len() + 1
            &&& self.cursor.current() == Some(vs.last())
            &&& self.current == vs.last()
        } else {
            vs.len() == rs.len()
        }
        &&& self.success == all_passed(rs)
        &&& self.first_failure == first_failure_of(vs, rs)
        &&& self.cursor.stopped_set() == if self.fail_fast {
            failed_nodes(vs, rs)
        } else {
            Set::empty()
        }
    }

    /// A run over the nodes strictly below `start`.
    pub fn new(g: &StackGraph, start: usize, fail_fast: bool, dry_run: bool) -> (c: Cascade)
        requires
            g.wf(),
            start < g.node_count(),
        ensures
            c.inv(),
            c.walk().shape() == g.parent_seq(),
            c.walk().start_node() == start,
            c.visited().len() == 0,
            c.result_seq().len() == 0,
            c.is_fail_fast() == fail_fast,
            c.is_dry_run() == dry_run,
            !c.is_awaiting(),
    {
        let cursor = Cursor::descendants_of(g, start);
        let c = Cascade {
            cursor,
            fail_fast,
            dry_run,
            awaiting: false,
            current: start,
            success: true,
            first_failure: None,
            results: Ghost(Seq::empty()),
        };
        proof {
            assert(failed_nodes(c.cursor.visited(), c.results@) =~= Set::empty());
        }
        c
    }

    /// Hands out the next node to run the command on, or `None` once the
    /// walk is over.
    pub fn advance(&mut self, g: &StackGraph) -> (r: Option<Visit>)
        requires
            g.wf(),
            old(self).inv(),
            !old(self).is_awaiting(),
            old(self).walk().shape() == g.parent_seq(),
        ensures
            final(self).inv(),
            final(self).walk().shape() == old(self).walk().shape(),
            final(self).walk().start_node() == old(self).walk().start_node(),
            final(self).result_seq() == old(self).result_seq(),
            final(self).is_fail_fast() == old(self).is_fail_fast(),
            final(self).is_dry_run() == old(self).is_dry_run(),
            r is None ==> {
                &&& !final(self).is_awaiting()
                &&& final(self).walk().is_done()
                &&& final(self).visited() == old(self).visited()
            },
            r matches Some(v) ==> {
                &&& final(self).is_awaiting()
                &&& final(self).visited() == old(self).visited().push(v.node)
                &&& v.node < g.node_count()
                &&& v.checkout == !old(self).is_dry_run()
            },
    {
        let ghost vs0 = self.cursor.visited();
        let ghost rs = self.results@;
        match self.cursor.next(g) {
            None => {
                proof {
                    assert(self.cursor.visited() == vs0);
                }
                None
            },
            Some(node) => {
                self.awaiting = true;
                self.current = node;
                proof {
                    let vs = self.cursor.visited();
                    lemma_first_failure_prefix(vs0, vs, rs);
                    assert(failed_nodes(vs, rs) =~= failed_nodes(vs0, rs)) by {
                        assert forall|s: usize| failed_nodes(vs, rs).contains(s) <==> failed_nodes(vs0, rs).contains(s) by {
                            if failed_nodes(vs, rs).contains(s) {
                                let k = choose|k: int| 0 <= k < rs.len() && !rs[k] && vs[k] == s;
                                assert(vs0[k] == s);
                            }
                            if failed_nodes(vs0, rs).contains(s) {
                                let k = choose|k: int| 0 <= k < rs.len() && !rs[k] && vs0[k] == s;
                                assert(vs[k] == s);
                            }
                        }
                    }
                }
                Some(Visit { node, checkout: !self.dry_run })
            },
        }
    }
}

impl Cascade {
    /// Takes in whether the command passed on the node last handed out. A
    /// failure under fail-fast prunes that node's descendants from the walk.
    pub fn record(&mut self, passed: bool)
        requires
            old(self).inv(),
            old(self).is_awaiting(),
        ensures
            final(self).inv(),
            !final(self).is_awaiting(),
            final(self).walk().shape() == old(self).walk().shape(),
            final(self).walk().start_node() == old(self).walk().start_node(),
            final(self).visited() == old(self).visited(),
            final(self).result_seq() == old(self).result_seq().push(passed),
            final(self).is_fail_fast() == old(self).is_fail_fast(),
            final(self).is_dry_run() == old(self).is_dry_run(),
    {
        let ghost vs = self.cursor.visited();
        let ghost rs = self.results@;
        let ghost stops0 = self.cursor.stopped_set();
        self.results = Ghost(rs.push(passed));
        self.awaiting = false;
        if !passed {
            if self.first_failure.is_none() {
                self.first_failure = Some(self.current);
            }
            if self.fail_fast {
                self.cursor.stop();
            }
            self.success = false;
        }
        proof {
            let rs2 = self.results@;
            let n = rs.len() as int;
            assert(rs2.take(n) =~= rs);
            assert(rs2[n] == passed);
            lemma_first_failure_none(vs, rs);
            if passed {
                assert(failed_nodes(vs, rs2) =~= failed_nodes(vs, rs)) by {
                    assert forall|s: usize| failed_nodes(vs, rs2).contains(s) implies failed_nodes(vs, rs).contains(s) by {
                        let k = choose|k: int| 0 <= k < rs2.len() && !rs2[k] && vs[k] == s;
                        assert(rs[k] == rs2[k]);
                    }
                    assert forall|s: usize| failed_nodes(vs, rs).contains(s) implies failed_nodes(vs, rs2).contains(s) by {
                        let k = choose|k: int| 0 <= k < rs.len() && !rs[k] && vs[k] == s;
                        assert(rs[k] == rs2[k]);
                    }
                }
                assert forall|k: int| 0 <= k < rs2.len() implies #[trigger] rs2[k] == (k < n ==> rs[k]) by {}
            } else {
                assert(!rs2[n]);
                assert(failed_nodes(vs, rs2) =~= failed_nodes(vs, rs).insert(vs.last())) by {
                    assert forall|s: usize| failed_nodes(vs, rs2).contains(s) implies failed_nodes(vs, rs).insert(vs.last()).contains(s) by {
                        let k = choose|k: int| 0 <= k < rs2.len() && !rs2[k] && vs[k] == s;
                        if k < n {
                            assert(rs[k] == rs2[k]);
                        }
                    }
                    assert forall|s: usize| failed_nodes(vs, rs).insert(vs.last()).contains(s) implies failed_nodes(vs, rs2).contains(s) by {
                        if s == vs.last() {
                            assert(!rs2[n] && vs[n] == s);
                        } else {
                            let k = choose|k: int| 0 <= k < rs.len() && !rs[k] && vs[k] == s;
                            assert(rs[k] == rs2[k]);
                        }
                    }
                }
            }
        }
    }

    /// Whether every command so far passed.
    pub fn succeeded(&self) -> (r: bool)
        requires
            self.inv(),
        ensures
            r == all_passed(self.result_seq()),
    {
        self.success
    }

    /// The first node whose command failed, if any.
    pub fn first_failure(&self) -> (r: Option<usize>)
        requires
            self.inv(),
        ensures
            r == first_failure_of(self.visited(), self.result_seq()),
    {
        self.first_failure
    }

    /// How the run ends: `head` is the node of the commit checked out at the
    /// start, if it lies in the walk; `on_branch` whether a branch was checked
    /// out; `stashed` whether changes were stashed at the start.
    pub fn finish(&self, head: Option<usize>, on_branch: bool, switch: bool, stashed: bool) -> (r: Wrapup)
        requires
            self.inv(),
            !self.is_awaiting(),
        ensures
            r == wrapup_of(
                all_passed(self.result_seq()),
                first_failure_of(self.visited(), self.result_seq()),
                head,
                on_branch,
                switch,
                self.is_dry_run(),
                stashed,
            ),
    {
        let moved = match (self.first_failure, head) {
            (Some(f), Some(h)) => f != h,
            (Some(_), None) => true,
            (None, _) => false,
        };
        if !self.success && switch && moved {
            let f = match self.first_failure {
                Some(f) => f,
                None => 0,
            };
            Wrapup { landing: Landing::AtFailure(f), checkout: !self.dry_run, pop_stash: false, success: self.success }
        } else {
            let landing = if on_branch {
                Landing::RestoreBranch
            } else {
                Landing::RestoreCommit
            };
            Wrapup { landing, checkout: !self.dry_run, pop_stash: stashed, success: self.success }
        }
    }
}

/// When every command passes, the run succeeds, goes back to the branch or
/// commit it started from and pops any stash it took; a walk that is over
/// has then visited every node below its start.
pub proof fn lemma_all_pass_restores(c: &Cascade, head: Option<usize>, on_branch: bool, switch: bool, stashed: bool)
    requires
        c.inv(),
        all_passed(c.result_seq()),
    ensures
        ({
            let w = wrapup_of(
                all_passed(c.result_seq()),
                first_failure_of(c.visited(), c.result_seq()),
                head,
                on_branch,
                switch,
                c.is_dry_run(),
                stashed,
            );
            &&& w.success
            &&& w.landing == if on_branch { Landing::RestoreBranch } else { Landing::RestoreCommit }
            &&& w.pop_stash == stashed
        }),
        first_failure_of(c.visited(), c.result_seq()) is None,
        c.walk().is_done() ==> forall|d: int|
            0 <= d < c.walk().shape().len() && #[trigger] is_ancestor(c.walk().shape(), c.walk().start_node(), d)
                ==> c.visited().contains(d as usize),
{
    lemma_first_failure_none(c.visited(), c.result_seq());
    assert(failed_nodes(c.visited(), c.result_seq()) =~= Set::empty()) by {
        assert forall|s: usize| !failed_nodes(c.visited(), c.result_seq()).contains(s) by {
            if failed_nodes(c.visited(), c.result_seq()).contains(s) {
                let k = choose|k: int| 0 <= k < c.result_seq().len() && !c.result_seq()[k] && c.visited()[k] == s;
                assert(c.result_seq()[k]);
            }
        }
    }
    if c.walk().is_done() {
        lemma_walk_complete(&c.walk());
    }
}

/// Under fail-fast, no node below a failed node is ever run, and a walk that
/// is over has run every node below its start that lies below no failure.
pub proof fn lemma_fail_fast_prunes(c: &Cascade)
    requires
        c.inv(),
        c.is_fail_fast(),
    ensures
        forall|k: int, s: usize|
            0 <= k < c.visited().len() && #[trigger] failed_nodes(c.visited(), c.result_seq()).contains(s)
                ==> !is_ancestor(c.walk().shape(), s as int, #[trigger] c.visited()[k] as int),
        c.walk().is_done() ==> forall|d: int|
            0 <= d < c.walk().shape().len() && #[trigger] is_ancestor(c.walk().shape(), c.walk().start_node(), d)
                && (forall|s: usize| #[trigger] failed_nodes(c.visited(), c.result_seq()).contains(s)
                ==> !is_ancestor(c.walk().shape(), s as int, d)) ==> c.visited().contains(d as usize),
{
    let w = c.walk();
    let failed = failed_nodes(c.visited(), c.result_seq());
    lemma_stopped_subtrees_pruned(&w);
    assert(w.stopped_set() == failed);
    if w.is_done() {
        lemma_walk_complete(&w);
        assert forall|d: int|
            0 <= d < w.shape().len() && #[trigger] is_ancestor(w.shape(), w.start_node(), d) && (forall|s: usize|
                #[trigger] failed.contains(s) ==> !is_ancestor(w.shape(), s as int, d)) implies c.visited().contains(
            d as usize,
        ) by {
            assert forall|s: usize| #[trigger] w.stopped_set().contains(s) implies !is_ancestor(w.shape(), s as int, d) by {
                assert(failed.contains(s));
            }
        }
    }
}

/// Without fail-fast, a walk that is over has run every node below its start.
pub proof fn lemma_keep_going_visits_all(c: &Cascade)
    requires
        c.inv(),
        !c.is_fail_fast(),
        c.walk().is_done(),
    ensures
        forall|d: int|
            0 <= d < c.walk().shape().len() && #[trigger] is_ancestor(c.walk().shape(), c.walk().start_node(), d)
                ==> c.visited().contains(d as usize),
{
    lemma_walk_complete(&c.walk());
}

/// With `--switch`, a failure whose first node is not the starting commit
/// leaves the tree at that node, and no stash is popped (none was taken).
pub proof fn lemma_switch_lands_on_failure(c: &Cascade, head: Option<usize>, on_branch: bool, stashed: bool)
    requires
        c.inv(),
        !all_passed(c.result_seq()),
        first_failure_of(c.visited(), c.result_seq()) != head,
    ensures
        ({
            let f = first_failure_of(c.visited(), c.result_seq());
            let w = wrapup_of(false, f, head, on_branch, true, c.is_dry_run(), stashed);
            &&& f is Some
            &&& w.landing == Landing::AtFailure(f->0)
            &&& !w.pop_stash
            &&& !w.success
        }),
        !stash_planned(c.is_dry_run(), true),
{
    lemma_first_failure_none(c.visited(), c.result_seq());
}

/// A dry run takes no stash, checks nothing out, pops nothing, and only
/// warns about a dirty tree.
pub proof fn lemma_dry_run_touches_nothing(
    dirty: bool,
    switch: bool,
    success: bool,
    first_failure: Option<usize>,
    head: Option<usize>,
    on_branch: bool,
)
    ensures
        !stash_planned(true, switch),
        dirty_verdict_of(true, dirty) == if dirty { DirtyVerdict::Warn } else { DirtyVerdict::Proceed },
        !wrapup_of(success, first_failure, head, on_branch, switch, true, stash_planned(true, switch)).checkout,
        !wrapup_of(success, first_failure, head, on_branch, switch, true, stash_planned(true, switch)).pop_stash,
{
}

/// The first failure depends only on the visited nodes that have a result.
proof fn lemma_first_failure_prefix(short: Seq<usize>, long: Seq<usize>, results: Seq<bool>)
    requires
        results.len() <= short.len() <= long.len(),
        forall|k: int| 0 <= k < short.len() ==> #[trigger] short[k] == long[k],
    ensures
        first_failure_of(short, results) == first_failure_of(long, results),
    decreases results.len(),
{
    if results.len() > 0 {
        lemma_first_failure_prefix(short, long, results.take(results.len() - 1));
    }
}

} // verus!
