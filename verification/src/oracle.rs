//! The last-use oracle: whether a read of a value is the last one in its block,
//! so that the value may be consumed rather than copied; and the fetching of a
//! value by the one or the other.

use vstd::prelude::*;
use crate::depgraph::{DependencyGraph, Graph, Link, Node};
use crate::error::StackifyError;
use crate::hir::Value;
use crate::masm::{self, Op, MAX_OPERAND_INDEX};
use crate::masm::lemma_grows_same;
use crate::operand_stack::{
    all_applicable, apply_all, balanced, first_named, Entry, OperandStack,
};
use crate::primitives::{copy_operand_to_position, copy_ops, move_operand_to_position, move_ops};
use crate::treegraph::{
    first_node, node_position, root_of, tree_links_from, tree_predecessors, visit_order, TreeGraph,
};

verus! {

/// Whether no node of the tree of `tree` other than `dependent` that reads
/// `dependency` is reached after `dependent` when the tree is emitted; and,
/// where `dependency` is an instruction, whether `dependent` reads just one
/// of its values, just once. (A dependent that reads more of an instruction
/// never counts as its last: each such read is served by a copy.)
pub open spec fn last_visited(graph: Graph, dependent: Node, tree: Node, dependency: Node) -> bool {
    let order = visit_order(graph, tree, tree.rank());
    let links = tree_links_from(graph, tree, dependency, 0);
    &&& forall|k: int|
        0 <= k < links.len() && (#[trigger] links[k]).dependent != dependent ==> first_node(
            order,
            links[k].dependent,
            0,
        ) <= first_node(order, dependent, 0)
    &&& dependency is Inst ==> match graph.link_index(Link { dependent, dependency }) {
        Some(e) => graph.used[e].len() == 1 && graph.used[e][0].count == 1,
        None => false,
    }
}

/// Whether one of `roots` is among `remaining`.
pub open spec fn any_remaining(remaining: Seq<Node>, roots: Seq<Node>) -> bool {
    exists|i: int| 0 <= i < roots.len() && remaining.contains(#[trigger] roots[i])
}

/// Whether the read of `node` by `dependent` is the last in the block: no
/// tree that is still to be lowered, which are those behind the tree of
/// `dependent` in the schedule, reads from the tree of `node`, and within its
/// own tree `dependent` is the last to read `node`.
pub open spec fn last_use(
    graph: Graph,
    schedule: Seq<Node>,
    node: Node,
    node_tree: Node,
    dependent: Node,
) -> bool {
    let tree = root_of(graph, dependent);
    let at = first_node(schedule, tree, 0);
    let remaining = schedule.skip(if at < schedule.len() { at + 1 } else { at });
    !any_remaining(remaining, tree_predecessors(graph, node_tree)) && last_visited(
        graph,
        dependent,
        tree,
        node,
    )
}

/// Whether `dependent` is the last node of its tree, `dependent_tree`, to
/// read `dependency` when the tree is emitted.
pub fn is_last_dependent_visited(
    dependent: Node,
    dependent_tree: Node,
    dependency: Node,
    treegraph: &TreeGraph,
    depgraph: &DependencyGraph,
) -> (last: bool)
    requires
        depgraph@.wf(),
        treegraph@ == depgraph@,
    ensures
        last == last_visited(depgraph@, dependent, dependent_tree, dependency),
{
    let indices = treegraph.indexed(&dependent_tree);
    let dependent_index = match node_position(indices.as_slice(), &dependent) {
        Some(at) => at,
        None => indices.len(),
    };
    let links = treegraph.edges(&dependent_tree, &dependency);
    let mut k: usize = 0;
    while k < links.len()
        invariant
            k <= links@.len(),
            links@ == tree_links_from(depgraph@, dependent_tree, dependency, 0),
            indices@ == visit_order(depgraph@, dependent_tree, dependent_tree.rank()),
            dependent_index == first_node(indices@, dependent, 0),
            forall|j: int|
                0 <= j < k && (#[trigger] links@[j]).dependent != dependent ==> first_node(
                    indices@,
                    links@[j].dependent,
                    0,
                ) <= dependent_index,
        decreases links@.len() - k,
    {
        let other = links[k].dependent;
        if !other.is(&dependent) {
            let index = match node_position(indices.as_slice(), &other) {
                Some(at) => at,
                None => indices.len(),
            };
            if index > dependent_index {
                return false;
            }
        }
        k = k + 1;
    }
    match dependency {
        Node::Inst(_, _) => {
            match depgraph.edge_id(Link { dependent, dependency }) {
                Some(e) => {
                    let used = depgraph.used(e);
                    used.len() == 1 && used[0].count == 1
                },
                None => false,
            }
        },
        Node::Stack(_) => true,
    }
}

/// Whether one of `roots` is among `remaining`.
fn has_remaining(remaining: &[Node], roots: &Vec<Node>) -> (found: bool)
    ensures
        found == any_remaining(remaining@, roots@),
{
    let mut i: usize = 0;
    while i < roots.len()
        invariant
            i <= roots@.len(),
            forall|j: int| 0 <= j < i ==> !remaining@.contains(#[trigger] roots@[j]),
        decreases roots@.len() - i,
    {
        if node_position(remaining, &roots[i]).is_some() {
            return true;
        }
        i = i + 1;
    }
    false
}

/// Whether the read of `node`, of the tree `node_tree`, by `dependent` is
/// the last in the block.
pub fn is_last_use(
    node: Node,
    node_tree: Node,
    dependent: Node,
    schedule: &[Node],
    treegraph: &TreeGraph,
    depgraph: &DependencyGraph,
) -> (last: bool)
    requires
        depgraph@.wf(),
        treegraph@ == depgraph@,
    ensures
        last == last_use(depgraph@, schedule@, node, node_tree, dependent),
{
    let dependent_tree = treegraph.root(&dependent);
    let n = schedule.len();
    let behind = match node_position(schedule, &dependent_tree) {
        Some(at) => at + 1,
        None => n,
    };
    let remaining = vstd::slice::slice_subrange(schedule, behind, n);
    assert(remaining@ =~= schedule@.skip(behind as int));
    let roots = treegraph.predecessors(&node_tree);
    let has_remaining_dependents = has_remaining(remaining, &roots);
    let is_last_occurrence = is_last_dependent_visited(
        dependent,
        dependent_tree,
        node,
        treegraph,
        depgraph,
    );
    !has_remaining_dependents && is_last_occurrence
}

/// Whether the read of `node` by `dependent` may take the value off the
/// stack: the value is not live after the block, and either nothing else in
/// the block reads it or this read is the last in the block.
pub open spec fn may_consume(
    graph: Graph,
    schedule: Seq<Node>,
    node: Node,
    node_tree: Node,
    dependent: Node,
    dependents: nat,
    live_after_block: bool,
) -> bool {
    !live_after_block && (dependents <= 1 || last_use(graph, schedule, node, node_tree, dependent))
}

/// Decides between a move and a copy for the read of `node`, of the tree
/// `node_tree`, by `dependent`, where `num_dependents` nodes read `node`
/// and `live_after_block` tells whether the value is live after the block: a
/// move is decided on only if no read of the value follows, in the block
/// or after it.
pub fn is_consuming_read(
    node: Node,
    node_tree: Node,
    dependent: Node,
    num_dependents: usize,
    live_after_block: bool,
    schedule: &[Node],
    treegraph: &TreeGraph,
    depgraph: &DependencyGraph,
) -> (consume: bool)
    requires
        depgraph@.wf(),
        treegraph@ == depgraph@,
    ensures
        consume == may_consume(
            depgraph@,
            schedule@,
            node,
            node_tree,
            dependent,
            num_dependents as nat,
            live_after_block,
        ),
        consume ==> !live_after_block,
{
    if live_after_block {
        false
    } else if num_dependents > 1 {
        is_last_use(node, node_tree, dependent, schedule, treegraph, depgraph)
    } else {
        true
    }
}

/// Why `value` cannot be fetched to position `m`, if it cannot: it is not on
/// the stack, or it or the position is out of reach. A value that is to be
/// moved to where it is can be fetched at any depth: there is nothing to do.
pub open spec fn fetch_error(stack: Seq<Entry>, value: Value, m: int, consume: bool) -> Option<
    StackifyError,
> {
    let j = first_named(stack, value, 0);
    if j >= stack.len() {
        Some(StackifyError::ValueNotFound(value))
    } else if consume && j == m {
        None
    } else if j > MAX_OPERAND_INDEX || m > MAX_OPERAND_INDEX || m > stack.len() || (consume && m
        >= stack.len()) {
        Some(StackifyError::LimitExceeded)
    } else {
        None
    }
}

/// The operations that fetch `value` to position `m`: a move if the value
/// may be consumed, else a copy.
pub open spec fn fetch_ops(stack: Seq<Entry>, value: Value, m: int, consume: bool, flexible: bool) -> Seq<
    Op,
> {
    if consume {
        move_ops(first_named(stack, value, 0), m, flexible)
    } else {
        copy_ops(first_named(stack, value, 0), m, flexible)
    }
}

/// Brings `value` to position `stack_index` of the stack: by a move if
/// `consume` says that the value is not needed again, else by a copy, so that
/// it stays where it is as well. Fails, with nothing written, if the value
/// is not on the stack or out of reach.
pub fn fetch_operand(
    value: Value,
    stack_index: usize,
    consume: bool,
    flexible: bool,
    stack: &mut OperandStack,
    block: &mut masm::Block,
) -> (result: Result<(), StackifyError>)
    ensures
        match fetch_error(old(stack)@, value, stack_index as int, consume) {
            Some(e) => {
                &&& result == Err::<(), StackifyError>(e)
                &&& final(stack)@ == old(stack)@
                &&& final(block)@ == old(block)@
            },
            None => {
                let ops = fetch_ops(old(stack)@, value, stack_index as int, consume, flexible);
                &&& result is Ok
                &&& final(block)@ == old(block)@ + ops
                &&& all_applicable(ops, old(stack)@)
                &&& final(stack)@ == apply_all(ops, old(stack)@)
                &&& final(stack)@.len() == old(stack)@.len() + (if consume {
                    0int
                } else {
                    1int
                })
            },
        },
        balanced(final(block)@, old(block)@, final(stack)@, old(stack)@),
{
    proof {
        lemma_grows_same(old(block)@);
    }
    let pos = match stack.find(value) {
        Some(pos) => pos,
        None => {
            return Err(StackifyError::ValueNotFound(value));
        },
    };
    if !(consume && pos == stack_index) && (pos > MAX_OPERAND_INDEX || stack_index
        > MAX_OPERAND_INDEX || stack_index > stack.len() || (consume && stack_index >= stack.len())) {
        return Err(StackifyError::LimitExceeded);
    }
    if consume {
        move_operand_to_position(pos, stack_index, flexible, stack, block);
    } else {
        copy_operand_to_position(pos, stack_index, flexible, stack, block);
    }
    Ok(())
}

} // verus!
