//! A model of a stack of dependent branches: the commit tree, the action
//! assigned to each commit, a pruning walk over the tree, and the decisions
//! that drive one command across every commit of the stack.
use vstd::prelude::*;

pub mod actions;
pub mod cursor;
pub mod graph;
pub mod protect;
pub mod run;

verus! {

} // verus!
