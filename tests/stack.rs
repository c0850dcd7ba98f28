use git_stack_core::actions::{classify, Action};
use git_stack_core::cursor::Cursor;
use git_stack_core::graph::{BranchWalk, CommitInfo, StackGraph};
use git_stack_core::protect::{MatchMode, ProtectedBranches};
use git_stack_core::run::{
    dirty_verdict, resolve_bool_arg, should_stash, Cascade, DirtyVerdict, Landing, RunArgs, Visit,
};

fn s(x: &str) -> String {
    x.to_string()
}

/// base -> A -> B(feat1) -> C(feat2)
fn linear_stack() -> StackGraph {
    let mut g = StackGraph::new(b"base".to_vec(), s("base commit"));
    let a = g.insert(0, b"a".to_vec(), s("A"));
    let b = g.insert(a, b"b".to_vec(), s("B"));
    let c = g.insert(b, b"c".to_vec(), s("C"));
    g.attach_branch(b, s("feat1"), false);
    g.attach_branch(c, s("feat2"), false);
    g
}

/// base -> A -> {B -> D, C}
fn forked_stack() -> StackGraph {
    let mut g = StackGraph::new(b"base".to_vec(), s("base commit"));
    let a = g.insert(0, b"a".to_vec(), s("A"));
    let b = g.insert(a, b"b".to_vec(), s("B"));
    let _c = g.insert(a, b"c".to_vec(), s("C"));
    let _d = g.insert(b, b"d".to_vec(), s("D"));
    g
}

fn drive(g: &StackGraph, fail_fast: bool, dry_run: bool, failing: &[usize]) -> (Vec<Visit>, Cascade) {
    let mut run = Cascade::new(g, g.root(), fail_fast, dry_run);
    let mut visits = Vec::new();
    while let Some(v) = run.advance(g) {
        visits.push(v);
        run.record(!failing.contains(&v.node));
    }
    (visits, run)
}

fn walk_all(g: &StackGraph, stop_at: &[usize]) -> Vec<usize> {
    let mut cursor = Cursor::descendants_of(g, g.root());
    let mut out = Vec::new();
    while let Some(n) = cursor.next(g) {
        out.push(n);
        if stop_at.contains(&n) {
            cursor.stop();
        }
    }
    out
}

#[test]
fn example_stack_all_pass() {
    let g = linear_stack();
    let (visits, run) = drive(&g, true, false, &[]);
    let nodes: Vec<usize> = visits.iter().map(|v| v.node).collect();
    assert_eq!(nodes, vec![1, 2, 3]);
    assert!(visits.iter().all(|v| v.checkout));
    assert!(run.succeeded());
    assert_eq!(run.first_failure(), None);
    let w = run.finish(Some(3), true, false, true);
    assert!(w.success);
    assert_eq!(w.landing, Landing::RestoreBranch);
    assert!(w.checkout);
    assert!(w.pop_stash);
}

#[test]
fn example_stack_fail_fast_skips_descendant() {
    let g = linear_stack();
    let (visits, run) = drive(&g, true, false, &[2]);
    let nodes: Vec<usize> = visits.iter().map(|v| v.node).collect();
    assert_eq!(nodes, vec![1, 2]);
    assert!(!run.succeeded());
    assert_eq!(run.first_failure(), Some(2));
}

#[test]
fn example_stack_keep_going_visits_descendant() {
    let g = linear_stack();
    let (visits, run) = drive(&g, false, false, &[2]);
    let nodes: Vec<usize> = visits.iter().map(|v| v.node).collect();
    assert_eq!(nodes, vec![1, 2, 3]);
    assert!(!run.succeeded());
    assert_eq!(run.first_failure(), Some(2));
}

#[test]
fn all_pass_restores_detached_head() {
    let g = forked_stack();
    let (visits, run) = drive(&g, true, false, &[]);
    assert_eq!(visits.len(), 4);
    let w = run.finish(Some(4), false, false, false);
    assert!(w.success);
    assert_eq!(w.landing, Landing::RestoreCommit);
    assert!(!w.pop_stash);
}

#[test]
fn fail_fast_prunes_only_failing_lineage() {
    let g = forked_stack();
    let (visits, run) = drive(&g, true, false, &[2]);
    let nodes: Vec<usize> = visits.iter().map(|v| v.node).collect();
    assert_eq!(nodes, vec![1, 2, 3]);
    assert!(!nodes.contains(&4));
    assert_eq!(run.first_failure(), Some(2));
}

#[test]
fn first_failure_wins() {
    let g = forked_stack();
    let (_, run) = drive(&g, false, false, &[3, 4]);
    assert_eq!(run.first_failure(), Some(4));
    let (_, run) = drive(&g, false, false, &[4, 3]);
    assert_eq!(run.first_failure(), Some(4));
    let (_, run) = drive(&g, false, false, &[1, 4]);
    assert_eq!(run.first_failure(), Some(1));
}

#[test]
fn switch_lands_on_first_failure() {
    let g = linear_stack();
    let (_, run) = drive(&g, true, false, &[2]);
    let w = run.finish(Some(3), true, true, false);
    assert_eq!(w.landing, Landing::AtFailure(2));
    assert!(!w.pop_stash);
    assert!(w.checkout);
    assert!(!w.success);
}

#[test]
fn switch_when_head_failed_restores() {
    let g = linear_stack();
    let (_, run) = drive(&g, true, false, &[2]);
    let w = run.finish(Some(2), true, true, false);
    assert_eq!(w.landing, Landing::RestoreBranch);
    assert!(!w.success);
}

#[test]
fn failure_without_switch_restores_and_pops() {
    let g = linear_stack();
    let (_, run) = drive(&g, true, false, &[1]);
    let w = run.finish(Some(3), true, false, true);
    assert_eq!(w.landing, Landing::RestoreBranch);
    assert!(w.pop_stash);
    assert!(!w.success);
}

#[test]
fn dry_run_moves_nothing() {
    let g = linear_stack();
    assert!(!should_stash(true, false));
    assert!(!should_stash(true, true));
    assert_eq!(dirty_verdict(true, true), DirtyVerdict::Warn);
    let (visits, run) = drive(&g, true, true, &[2]);
    assert!(visits.iter().all(|v| !v.checkout));
    let w = run.finish(Some(3), true, true, false);
    assert!(!w.checkout);
    assert!(!w.pop_stash);
}

#[test]
fn stash_and_dirty_rules() {
    assert!(should_stash(false, false));
    assert!(!should_stash(false, true));
    assert_eq!(dirty_verdict(false, true), DirtyVerdict::Abort);
    assert_eq!(dirty_verdict(false, false), DirtyVerdict::Proceed);
    assert_eq!(dirty_verdict(true, false), DirtyVerdict::Proceed);
}

#[test]
fn cursor_parents_before_children() {
    let g = forked_stack();
    let order = walk_all(&g, &[]);
    assert_eq!(order, vec![1, 2, 4, 3]);
    for (i, n) in order.iter().enumerate() {
        let p = g.parent(*n).unwrap();
        assert!(p == g.root() || order[..i].contains(&p));
    }
}

#[test]
fn cursor_stop_prunes_subtree_only() {
    let g = forked_stack();
    assert_eq!(walk_all(&g, &[2]), vec![1, 2, 3]);
    assert_eq!(walk_all(&g, &[1]), vec![1]);
    assert_eq!(walk_all(&g, &[4]), vec![1, 2, 4, 3]);
}

#[test]
fn cursor_below_inner_node() {
    let g = forked_stack();
    let mut cursor = Cursor::descendants_of(&g, 2);
    assert_eq!(cursor.next(&g), Some(4));
    assert_eq!(cursor.next(&g), None);
    assert_eq!(cursor.next(&g), None);
}

#[test]
fn cursor_on_bare_root() {
    let g = StackGraph::new(b"base".to_vec(), s("base commit"));
    let mut cursor = Cursor::descendants_of(&g, 0);
    assert_eq!(cursor.next(&g), None);
}

#[test]
fn graph_single_root() {
    let g = forked_stack();
    assert_eq!(g.len(), 5);
    assert_eq!(g.parent(0), None);
    for i in 1..g.len() {
        assert!(g.parent(i).unwrap() < i);
    }
    assert_eq!(g.parent(4), Some(2));
    assert_eq!(g.commit_id(3), &b"c".to_vec());
    assert_eq!(g.summary(1), "A");
}

#[test]
fn branch_labels() {
    let g = linear_stack();
    assert_eq!(g.branch_count(), 2);
    assert_eq!(g.branch_node(0), 2);
    assert_eq!(g.branch_name(1), "feat2");
    assert!(!g.branch_is_protected(0));
}

#[test]
fn classify_protection_and_redundancy() {
    let mut g = forked_stack();
    g.attach_branch(3, s("main"), true);
    g.attach_branch(4, s("topic"), false);
    g.mark_redundant(2);
    g.mark_redundant(3);
    let actions = classify(&g);
    assert_eq!(
        actions,
        vec![Action::Protected, Action::Protected, Action::Delete, Action::Protected, Action::Pick]
    );
    let plain = classify(&linear_stack());
    assert!(plain.iter().all(|a| a.is_pick()));
}

#[test]
fn action_predicates() {
    assert!(Action::Pick.is_pick());
    assert!(!Action::Pick.is_protected());
    assert!(Action::Protected.is_protected());
    assert!(!Action::Protected.is_delete());
    assert!(Action::Delete.is_delete());
    assert!(!Action::Delete.is_pick());
}

#[test]
fn fail_fast_flags() {
    assert_eq!(resolve_bool_arg(true, false), Some(true));
    assert_eq!(resolve_bool_arg(false, true), Some(false));
    assert_eq!(resolve_bool_arg(false, false), None);
    let mut args = RunArgs {
        command: vec![s("true")],
        no_fail_fast: false,
        fail_fast: false,
        switch: false,
        dry_run: false,
    };
    assert!(args.fail_fast());
    args.no_fail_fast = true;
    assert!(!args.fail_fast());
    args.no_fail_fast = false;
    args.fail_fast = true;
    assert!(args.fail_fast());
    let alias = RunArgs::alias();
    assert_eq!(alias.alias, "run");
    assert_eq!(alias.action, "stack run");
    assert_eq!(alias.action_base, "stack run");
}

fn commit(id: &str) -> CommitInfo {
    CommitInfo { id: id.as_bytes().to_vec(), summary: format!("summary of {}", id) }
}

fn walk_of(name: &str, protected: bool, chain: &[&str]) -> BranchWalk {
    BranchWalk { name: s(name), protected, chain: chain.iter().map(|c| commit(c)).collect() }
}

#[test]
fn from_branches_shares_history() {
    let branches = vec![
        walk_of("feat2", false, &["c", "b", "a"]),
        walk_of("feat1", false, &["b", "a"]),
        walk_of("side", false, &["d", "a"]),
        walk_of("main", true, &[]),
    ];
    let g = StackGraph::from_branches(&commit("base"), &branches);
    assert_eq!(g.len(), 5);
    assert_eq!(g.commit_id(0), &b"base".to_vec());
    assert_eq!(g.commit_id(1), &b"a".to_vec());
    assert_eq!(g.commit_id(2), &b"b".to_vec());
    assert_eq!(g.commit_id(3), &b"c".to_vec());
    assert_eq!(g.commit_id(4), &b"d".to_vec());
    assert_eq!(g.parent(1), Some(0));
    assert_eq!(g.parent(2), Some(1));
    assert_eq!(g.parent(3), Some(2));
    assert_eq!(g.parent(4), Some(1));
    assert_eq!(g.summary(3), "summary of c");
    assert_eq!(g.branch_count(), 4);
    assert_eq!(g.branch_node(0), 3);
    assert_eq!(g.branch_node(1), 2);
    assert_eq!(g.branch_node(2), 4);
    assert_eq!(g.branch_node(3), 0);
    assert!(g.branch_is_protected(3));
    assert_eq!(g.branch_name(2), "side");
    assert_eq!(g.find(&b"d".to_vec()), Some(4));
    assert_eq!(g.find(&b"zz".to_vec()), None);
}

#[test]
fn from_branches_same_tip_labels_one_node() {
    let branches = vec![walk_of("x", false, &["a"]), walk_of("y", false, &["a"])];
    let g = StackGraph::from_branches(&commit("base"), &branches);
    assert_eq!(g.len(), 2);
    assert_eq!(g.branch_node(0), 1);
    assert_eq!(g.branch_node(1), 1);
}

#[test]
fn from_branches_then_walk_example() {
    let branches = vec![walk_of("feat1", false, &["b", "a"]), walk_of("feat2", false, &["c", "b", "a"])];
    let g = StackGraph::from_branches(&commit("base"), &branches);
    let (visits, run) = drive(&g, true, false, &[]);
    let ids: Vec<Vec<u8>> = visits.iter().map(|v| g.commit_id(v.node).clone()).collect();
    assert_eq!(ids, vec![b"a".to_vec(), b"b".to_vec(), b"c".to_vec()]);
    assert!(run.succeeded());
}

#[test]
fn protected_exact_match() {
    let p = ProtectedBranches::new(vec![s("main"), s("release")], MatchMode::Exact);
    assert!(p.is_protected("main"));
    assert!(p.is_protected("release"));
    assert!(!p.is_protected("release/1.0"));
    assert!(!p.is_protected("mai"));
    assert!(!p.is_protected(""));
}

#[test]
fn protected_prefix_match() {
    let p = ProtectedBranches::new(vec![s("release/")], MatchMode::Prefix);
    assert!(p.is_protected("release/1.0"));
    assert!(p.is_protected("release/"));
    assert!(!p.is_protected("release"));
    assert!(!p.is_protected("feature/release/x"));
    let none = ProtectedBranches::new(Vec::new(), MatchMode::Prefix);
    assert!(!none.is_protected("main"));
}
