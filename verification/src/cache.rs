//! What is kept of a loop header between the visits to it: its dependency
//! graph, the forest over it, its schedule, and the operands it was first
//! entered with.

use vstd::prelude::*;
use crate::depgraph::{DependencyGraph, Graph, Node};
use crate::operand_stack::Operand;
use crate::treegraph::{schedule_of, TreeGraph};

verus! {

/// The graphs and the schedule of one block, and the operands on the stack
/// when the block was first entered.
pub struct CacheEntry {
    depgraph: DependencyGraph,
    treegraph: TreeGraph,
    schedule: Vec<Node>,
    entry_state: Vec<Operand>,
}

impl CacheEntry {
    #[verifier::type_invariant]
    spec fn sound(&self) -> bool {
        &&& self.depgraph@.wf()
        &&& self.treegraph@ == self.depgraph@
        &&& self.schedule@ == schedule_of(self.depgraph@)
    }

    /// The dependency graph as a mathematical value.
    pub closed spec fn graph(&self) -> Graph {
        self.depgraph@
    }

    /// The operands that were on the stack, top first.
    pub closed spec fn entered_with(&self) -> Seq<Operand> {
        self.entry_state@
    }

    /// The entry for a block with the dependency graph `depgraph` that is
    /// entered with the operands `entry_state`.
    pub fn new(depgraph: DependencyGraph, entry_state: Vec<Operand>) -> (entry: CacheEntry)
        requires
            depgraph@.wf(),
        ensures
            entry.graph() == depgraph@,
            entry.entered_with() == entry_state@,
    {
        let treegraph = TreeGraph::new(depgraph.clone());
        let schedule = treegraph.toposort();
        CacheEntry { depgraph, treegraph, schedule, entry_state }
    }

    /// The dependency graph.
    pub fn depgraph(&self) -> (depgraph: &DependencyGraph)
        ensures
            depgraph@ == self.graph(),
            depgraph@.wf(),
    {
        proof {
            use_type_invariant(self);
        }
        &self.depgraph
    }

    /// The forest over the dependency graph.
    pub fn treegraph(&self) -> (treegraph: &TreeGraph)
        ensures
            treegraph@ == self.graph(),
    {
        proof {
            use_type_invariant(self);
        }
        &self.treegraph
    }

    /// The schedule.
    pub fn schedule(&self) -> (schedule: &Vec<Node>)
        ensures
            schedule@ == schedule_of(self.graph()),
    {
        proof {
            use_type_invariant(self);
        }
        &self.schedule
    }

    /// The operands that were on the stack when the block was first
    /// entered, top first.
    pub fn entry_state(&self) -> (operands: &Vec<Operand>)
        ensures
            operands@ == self.entered_with(),
    {
        &self.entry_state
    }
}

} // verus!
