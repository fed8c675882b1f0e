//! The dependency graph seen as a forest: a node that exactly one other node
//! depends on hangs below that node, every other node is the root of a tree. The
//! roots, put in order, are the schedule of the block.

use vstd::prelude::*;
use crate::depgraph::{
    dependencies_from, dependents_from, DependencyGraph, Graph, Link, Node,
};

verus! {

/// More steps than a chain of dependents can have: ranks are 16-bit numbers
/// and rise along the chain.
pub const RANK_LIMIT: u32 = 0x10000;

/// Whether `node` is the root of a tree: not exactly one node depends on it.
pub open spec fn is_root(graph: Graph, node: Node) -> bool {
    graph.dependents(node).len() != 1
}

/// The node reached from `node` by going to the only dependent, for as long
/// as there is exactly one, and for `steps` steps at most.
pub open spec fn climb(graph: Graph, node: Node, steps: nat) -> Node
    decreases steps,
{
    if steps == 0 || is_root(graph, node) {
        node
    } else {
        climb(graph, graph.dependents(node)[0], (steps - 1) as nat)
    }
}

/// The root of the tree that `node` belongs to.
pub open spec fn root_of(graph: Graph, node: Node) -> Node {
    climb(graph, node, RANK_LIMIT as nat)
}

/// The roots among the nodes at positions `from` and after, in the order of
/// the nodes.
pub open spec fn roots_from(graph: Graph, from: int) -> Seq<Node>
    decreases graph.nodes.len() - from,
{
    if from < 0 || from >= graph.nodes.len() {
        Seq::empty()
    } else if is_root(graph, graph.nodes[from]) {
        seq![graph.nodes[from]] + roots_from(graph, from + 1)
    } else {
        roots_from(graph, from + 1)
    }
}

/// The smallest position at or after `from` whose node has a greater rank
/// than `node`, or the length of `sorted` if there is none.
pub open spec fn rank_slot(sorted: Seq<Node>, node: Node, from: int) -> int
    decreases sorted.len() - from,
{
    if from < 0 || from >= sorted.len() {
        sorted.len() as int
    } else if sorted[from].rank() > node.rank() {
        from
    } else {
        rank_slot(sorted, node, from + 1)
    }
}

/// `sorted` with `node` put behind the nodes of its rank and of smaller
/// ranks that `sorted` begins with.
pub open spec fn insert_by_rank(sorted: Seq<Node>, node: Node) -> Seq<Node> {
    sorted.insert(rank_slot(sorted, node, 0), node)
}

/// The first `k` of `nodes` in the order of their ranks; nodes of the same
/// rank keep their order.
pub open spec fn sorted_upto(nodes: Seq<Node>, k: int) -> Seq<Node>
    decreases k,
{
    if k <= 0 {
        Seq::empty()
    } else {
        insert_by_rank(sorted_upto(nodes, k - 1), nodes[k - 1])
    }
}

/// The schedule of the graph: its roots in the order of their ranks, roots
/// of the same rank in the order in which they were added to the graph.
pub open spec fn schedule_of(graph: Graph) -> Seq<Node> {
    sorted_upto(roots_from(graph, 0), roots_from(graph, 0).len() as int)
}

/// The roots of the trees of `dependents[from..]`, in their order.
pub open spec fn tree_roots_from(graph: Graph, dependents: Seq<Node>, from: int) -> Seq<Node>
    decreases dependents.len() - from,
{
    if from < 0 || from >= dependents.len() {
        Seq::empty()
    } else {
        seq![root_of(graph, dependents[from])] + tree_roots_from(graph, dependents, from + 1)
    }
}

/// For each edge that ends at `node`, in the order of the edges, the root
/// of the tree that the edge comes from.
pub open spec fn tree_predecessors(graph: Graph, node: Node) -> Seq<Node> {
    tree_roots_from(graph, graph.dependents(node), 0)
}

/// The edges at places `from` and after that lead from a node of the tree
/// of `tree` to `dependency`.
pub open spec fn tree_links_from(graph: Graph, tree: Node, dependency: Node, from: int) -> Seq<
    Link,
>
    decreases graph.links.len() - from,
{
    if from < 0 || from >= graph.links.len() {
        Seq::empty()
    } else if graph.links[from].dependency == dependency && root_of(
        graph,
        graph.links[from].dependent,
    ) == tree {
        seq![graph.links[from]] + tree_links_from(graph, tree, dependency, from + 1)
    } else {
        tree_links_from(graph, tree, dependency, from + 1)
    }
}

/// Whether `node` hangs below the node that depends on it: it is an
/// instruction and exactly one node depends on it.
pub open spec fn hangs(graph: Graph, node: Node) -> bool {
    node is Inst && !is_root(graph, node)
}

/// The order in which the nodes of the tree below `node` are reached when
/// the dependencies of a node are gone through last first, each with what
/// hangs below it, before the node itself. `depth` bounds how far down the
/// tree is followed.
pub open spec fn visit_order(graph: Graph, node: Node, depth: nat) -> Seq<Node>
    decreases depth, graph.dependencies(node).len() + 1,
{
    visit_below(
        graph,
        graph.dependencies(node),
        graph.dependencies(node).len() as int,
        depth,
    ).push(node)
}

/// The part of `visit_order` that the dependencies `deps[..k]` contribute.
pub open spec fn visit_below(graph: Graph, deps: Seq<Node>, k: int, depth: nat) -> Seq<Node>
    decreases depth, k,
{
    if k <= 0 || k > deps.len() {
        Seq::empty()
    } else if depth > 0 && hangs(graph, deps[k - 1]) {
        visit_order(graph, deps[k - 1], (depth - 1) as nat) + visit_below(graph, deps, k - 1, depth)
    } else {
        visit_below(graph, deps, k - 1, depth)
    }
}

/// What is reached below one of the dependencies `deps[..m]` that hangs is
/// reached with them.
pub proof fn lemma_visit_below(
    graph: Graph,
    deps: Seq<Node>,
    m: int,
    depth: nat,
    k: int,
    node: Node,
)
    requires
        0 <= k < m <= deps.len(),
        depth > 0,
        hangs(graph, deps[k]),
        visit_order(graph, deps[k], (depth - 1) as nat).contains(node),
    ensures
        visit_below(graph, deps, m, depth).contains(node),
    decreases m,
{
    let all = visit_below(graph, deps, m, depth);
    if k == m - 1 {
        let first = visit_order(graph, deps[k], (depth - 1) as nat);
        let i = first.index_of(node);
        assert(all[i] == node);
    } else {
        lemma_visit_below(graph, deps, m - 1, depth, k, node);
        let rest = visit_below(graph, deps, m - 1, depth);
        let i = rest.index_of(node);
        if hangs(graph, deps[m - 1]) {
            let first = visit_order(graph, deps[m - 1], (depth - 1) as nat);
            assert(all[first.len() + i] == node);
        } else {
            assert(all[i] == node);
        }
    }
}

/// What an edge leads to is among the dependencies of what it comes from.
pub proof fn lemma_dependency_listed(links: Seq<Link>, e: int, from: int)
    requires
        0 <= from <= e < links.len(),
    ensures
        dependencies_from(links, links[e].dependent, from).contains(links[e].dependency),
    decreases e - from,
{
    let all = dependencies_from(links, links[e].dependent, from);
    if from == e {
        assert(all[0] == links[e].dependency);
    } else {
        lemma_dependency_listed(links, e, from + 1);
        let rest = dependencies_from(links, links[e].dependent, from + 1);
        let i = rest.index_of(links[e].dependency);
        if links[from].dependent == links[e].dependent {
            assert(all[i + 1] == links[e].dependency);
        } else {
            assert(all[i] == links[e].dependency);
        }
    }
}

/// What is reached below an instruction is reached below the root of its
/// tree.
pub proof fn lemma_reached_below_root(graph: Graph, reached: Node, node: Node, steps: nat)
    requires
        graph.wf(),
        graph.nodes.contains(node),
        node is Inst,
        steps + node.rank() >= RANK_LIMIT,
        forall|depth: nat|
            depth >= node.rank() ==> (#[trigger] visit_order(graph, node, depth)).contains(reached),
    ensures
        forall|depth: nat|
            depth >= climb(graph, node, steps).rank() ==> (#[trigger] visit_order(
                graph,
                climb(graph, node, steps),
                depth,
            )).contains(reached),
    decreases steps,
{
    if !is_root(graph, node) {
        let above = graph.dependents(node)[0];
        lemma_dependents_rank(graph, node, 0, 0);
        let link = Link { dependent: above, dependency: node };
        let e = graph.links.index_of(link);
        lemma_dependency_listed(graph.links, e, 0);
        let deps = graph.dependencies(above);
        let k = deps.index_of(node);
        assert forall|depth: nat| depth >= above.rank() implies (#[trigger] visit_order(
            graph,
            above,
            depth,
        )).contains(reached) by {
            assert(visit_order(graph, node, (depth - 1) as nat).contains(reached));
            lemma_visit_below(graph, deps, deps.len() as int, depth, k, reached);
            let below = visit_below(graph, deps, deps.len() as int, depth);
            let i = below.index_of(reached);
            assert(visit_order(graph, above, depth)[i] == reached);
        }
        lemma_reached_below_root(graph, reached, above, (steps - 1) as nat);
    }
}

/// Every instruction of the graph is reached when the trees of the
/// schedule are gone through: the root of its tree is in the schedule, and
/// the instruction is in the order of that tree.
pub proof fn lemma_instruction_reached(graph: Graph, node: Node)
    requires
        graph.wf(),
        graph.nodes.contains(node),
        node is Inst,
    ensures
        schedule_of(graph).contains(root_of(graph, node)),
        visit_order(graph, root_of(graph, node), root_of(graph, node).rank()).contains(node),
{
    lemma_root_of(graph, node);
    lemma_schedule(graph);
    assert forall|depth: nat| depth >= node.rank() implies (#[trigger] visit_order(
        graph,
        node,
        depth,
    )).contains(node) by {
        let order = visit_order(graph, node, depth);
        assert(order[order.len() - 1] == node);
    }
    lemma_reached_below_root(graph, node, node, RANK_LIMIT as nat);
}

/// Within a tree a node is reached after what it reads: the node comes
/// last in the order of its own tree, and a dependency that hangs below it
/// comes before it.
pub proof fn lemma_visited_after_dependencies(graph: Graph, node: Node, depth: nat, k: int)
    requires
        depth > 0,
        0 <= k < graph.dependencies(node).len(),
        hangs(graph, graph.dependencies(node)[k]),
    ensures
        visit_order(graph, node, depth).last() == node,
        first_node(visit_order(graph, node, depth), graph.dependencies(node)[k], 0) < visit_order(
            graph,
            node,
            depth,
        ).len() - 1,
{
    let deps = graph.dependencies(node);
    let below = visit_below(graph, deps, deps.len() as int, depth);
    let order = visit_order(graph, node, depth);
    let hanging = visit_order(graph, deps[k], (depth - 1) as nat);
    assert(hanging[hanging.len() - 1] == deps[k]);
    lemma_visit_below(graph, deps, deps.len() as int, depth, k, deps[k]);
    let i = below.index_of(deps[k]);
    assert(order[i] == deps[k]);
    lemma_first_node(order, deps[k], 0, i);
}

/// `first_node` finds a node no later than any place at which it stands.
pub proof fn lemma_first_node(nodes: Seq<Node>, node: Node, from: int, at: int)
    requires
        0 <= from <= at < nodes.len(),
        nodes[at] == node,
    ensures
        from <= first_node(nodes, node, from) <= at,
    decreases at - from,
{
    if nodes[from] != node {
        lemma_first_node(nodes, node, from + 1, at);
    }
}

/// The smallest position at or after `from` at which `nodes` holds `node`,
/// or the length of `nodes` if there is none.
pub open spec fn first_node(nodes: Seq<Node>, node: Node, from: int) -> int
    decreases nodes.len() - from,
{
    if from < 0 || from >= nodes.len() {
        nodes.len() as int
    } else if nodes[from] == node {
        from
    } else {
        first_node(nodes, node, from + 1)
    }
}

/// What depends on a node has a greater rank than the node.
pub proof fn lemma_dependents_rank(graph: Graph, node: Node, from: int, i: int)
    requires
        graph.wf(),
        0 <= from,
        0 <= i < dependents_from(graph.links, node, from).len(),
    ensures
        dependents_from(graph.links, node, from)[i].rank() > node.rank(),
        graph.nodes.contains(dependents_from(graph.links, node, from)[i]),
        graph.links.contains(
            Link { dependent: dependents_from(graph.links, node, from)[i], dependency: node },
        ),
    decreases graph.links.len() - from,
{
    if from < graph.links.len() {
        if graph.links[from].dependency == node {
            if i == 0 {
                assert(graph.links[from] == Link {
                    dependent: graph.links[from].dependent,
                    dependency: node,
                });
            } else {
                lemma_dependents_rank(graph, node, from + 1, i - 1);
            }
        } else {
            lemma_dependents_rank(graph, node, from + 1, i);
        }
    }
}

/// What a node depends on has a smaller rank than the node.
pub proof fn lemma_dependencies_rank(graph: Graph, node: Node, from: int, i: int)
    requires
        graph.wf(),
        0 <= from,
        0 <= i < dependencies_from(graph.links, node, from).len(),
    ensures
        dependencies_from(graph.links, node, from)[i].rank() < node.rank(),
        graph.nodes.contains(dependencies_from(graph.links, node, from)[i]),
        graph.links.contains(
            Link { dependent: node, dependency: dependencies_from(graph.links, node, from)[i] },
        ),
    decreases graph.links.len() - from,
{
    if from < graph.links.len() {
        if graph.links[from].dependent == node {
            if i > 0 {
                lemma_dependencies_rank(graph, node, from + 1, i - 1);
            } else {
                assert(graph.links[from] == Link {
                    dependent: node,
                    dependency: graph.links[from].dependency,
                });
            }
        } else {
            lemma_dependencies_rank(graph, node, from + 1, i);
        }
    }
}

/// Climbing from a node of the graph ends at a root of the graph whose rank
/// is no smaller, once there are steps enough for the ranks that are left;
/// and then the number of steps does not matter.
pub proof fn lemma_climb(graph: Graph, node: Node, steps: nat, other: nat)
    requires
        graph.wf(),
        graph.nodes.contains(node),
        steps + node.rank() >= RANK_LIMIT,
        other + node.rank() >= RANK_LIMIT,
    ensures
        is_root(graph, climb(graph, node, steps)),
        graph.nodes.contains(climb(graph, node, steps)),
        climb(graph, node, steps).rank() >= node.rank(),
        climb(graph, node, steps) == climb(graph, node, other),
    decreases steps,
{
    if !is_root(graph, node) {
        lemma_dependents_rank(graph, node, 0, 0);
        lemma_climb(graph, graph.dependents(node)[0], (steps - 1) as nat, (other - 1) as nat);
    }
}

/// The root of the tree of a node of the graph is a root of the graph, and
/// its rank is no smaller than that of the node.
pub proof fn lemma_root_of(graph: Graph, node: Node)
    requires
        graph.wf(),
        graph.nodes.contains(node),
    ensures
        is_root(graph, root_of(graph, node)),
        graph.nodes.contains(root_of(graph, node)),
        root_of(graph, node).rank() >= node.rank(),
        is_root(graph, node) ==> root_of(graph, node) == node,
{
    lemma_climb(graph, node, RANK_LIMIT as nat, RANK_LIMIT as nat);
}

/// `roots_from` lists exactly the roots among the nodes at `from` and after.
pub proof fn lemma_roots_from(graph: Graph, from: int)
    requires
        0 <= from <= graph.nodes.len(),
    ensures
        forall|k: int|
            0 <= k < roots_from(graph, from).len() ==> is_root(
                graph,
                #[trigger] roots_from(graph, from)[k],
            ) && graph.nodes.contains(roots_from(graph, from)[k]),
        forall|i: int|
            from <= i < graph.nodes.len() && is_root(graph, #[trigger] graph.nodes[i])
                ==> roots_from(graph, from).contains(graph.nodes[i]),
    decreases graph.nodes.len() - from,
{
    let roots = roots_from(graph, from);
    if from < graph.nodes.len() {
        lemma_roots_from(graph, from + 1);
        let rest = roots_from(graph, from + 1);
        let head = graph.nodes[from];
        assert forall|k: int| 0 <= k < roots.len() implies is_root(graph, #[trigger] roots[k])
            && graph.nodes.contains(roots[k]) by {
            if is_root(graph, head) {
                if k > 0 {
                    assert(roots[k] == rest[k - 1]);
                }
            } else {
                assert(roots[k] == rest[k]);
            }
        }
        assert forall|i: int|
            from <= i < graph.nodes.len() && is_root(
                graph,
                #[trigger] graph.nodes[i],
            ) implies roots.contains(graph.nodes[i]) by {
            if i == from {
                assert(roots[0] == graph.nodes[i]);
            } else {
                assert(rest.contains(graph.nodes[i]));
                let at = rest.index_of(graph.nodes[i]);
                assert(rest[at] == graph.nodes[i]);
                if is_root(graph, head) {
                    assert(roots[at + 1] == graph.nodes[i]);
                } else {
                    assert(roots[at] == graph.nodes[i]);
                }
            }
        }
    }
}

/// Where a node is put by rank, the ranks before are no greater and the
/// ranks from there on are greater.
pub proof fn lemma_rank_slot(sorted: Seq<Node>, node: Node, from: int)
    requires
        0 <= from <= sorted.len(),
        forall|i: int, j: int|
            0 <= i < j < sorted.len() ==> (#[trigger] sorted[i]).rank() <= (
            #[trigger] sorted[j]).rank(),
    ensures
        from <= rank_slot(sorted, node, from) <= sorted.len(),
        forall|i: int| from <= i < rank_slot(sorted, node, from) ==> (#[trigger] sorted[i]).rank()
            <= node.rank(),
        forall|i: int|
            rank_slot(sorted, node, from) <= i < sorted.len() ==> (#[trigger] sorted[i]).rank()
                > node.rank(),
    decreases sorted.len() - from,
{
    if from < sorted.len() {
        if sorted[from].rank() > node.rank() {
            assert forall|i: int| from <= i < sorted.len() implies (#[trigger] sorted[i]).rank()
                > node.rank() by {
                if i > from {
                    assert(sorted[from].rank() <= sorted[i].rank());
                }
            }
        } else {
            lemma_rank_slot(sorted, node, from + 1);
        }
    }
}

/// Sorting by rank keeps the nodes and puts the ranks in rising order.
pub proof fn lemma_sorted_upto(nodes: Seq<Node>, k: int)
    requires
        0 <= k <= nodes.len(),
    ensures
        sorted_upto(nodes, k).len() == k,
        forall|i: int, j: int|
            0 <= i < j < k ==> (#[trigger] sorted_upto(nodes, k)[i]).rank() <= (
            #[trigger] sorted_upto(nodes, k)[j]).rank(),
        forall|node: Node|
            sorted_upto(nodes, k).contains(node) <==> nodes.take(k).contains(node),
    decreases k,
{
    if k > 0 {
        lemma_sorted_upto(nodes, k - 1);
        let before = sorted_upto(nodes, k - 1);
        let node = nodes[k - 1];
        lemma_rank_slot(before, node, 0);
        let slot = rank_slot(before, node, 0);
        let after = sorted_upto(nodes, k);
        assert(after == before.insert(slot, node));
        assert forall|i: int, j: int| 0 <= i < j < k implies (#[trigger] after[i]).rank() <= (
        #[trigger] after[j]).rank() by {
            let a = if i < slot {
                i
            } else {
                i - 1
            };
            let b = if j < slot {
                j
            } else {
                j - 1
            };
            if i != slot {
                assert(after[i] == before[a]);
            }
            if j != slot {
                assert(after[j] == before[b]);
            }
        }
        assert forall|other: Node| after.contains(other) <==> nodes.take(k).contains(other) by {
            if after.contains(other) {
                let i = after.index_of(other);
                assert(after[i] == other);
                if i == slot {
                    assert(nodes.take(k)[k - 1] == other);
                } else {
                    let a = if i < slot {
                        i
                    } else {
                        i - 1
                    };
                    assert(before[a] == other);
                    assert(before.contains(other));
                    let w = nodes.take(k - 1).index_of(other);
                    assert(nodes.take(k - 1)[w] == other);
                    assert(nodes.take(k)[w] == other);
                }
            }
            if nodes.take(k).contains(other) {
                let w = nodes.take(k).index_of(other);
                assert(nodes.take(k)[w] == other);
                if w == k - 1 {
                    assert(after[slot] == other);
                } else {
                    assert(nodes.take(k - 1)[w] == other);
                    assert(before.contains(other));
                    let a = before.index_of(other);
                    assert(before[a] == other);
                    if a < slot {
                        assert(after[a] == other);
                    } else {
                        assert(after[a + 1] == other);
                    }
                }
            }
        }
    }
}

/// The schedule holds exactly the roots of the graph, in the order of their
/// ranks.
pub proof fn lemma_schedule(graph: Graph)
    ensures
        forall|i: int, j: int|
            0 <= i < j < schedule_of(graph).len() ==> (#[trigger] schedule_of(graph)[i]).rank() <= (
            #[trigger] schedule_of(graph)[j]).rank(),
        forall|node: Node|
            #[trigger] schedule_of(graph).contains(node) <==> graph.nodes.contains(node) && is_root(
                graph,
                node,
            ),
{
    let roots = roots_from(graph, 0);
    lemma_sorted_upto(roots, roots.len() as int);
    lemma_roots_from(graph, 0);
    assert(roots.take(roots.len() as int) =~= roots);
    assert forall|node: Node|
        schedule_of(graph).contains(node) <==> graph.nodes.contains(node) && is_root(
            graph,
            node,
        ) by {
        if graph.nodes.contains(node) && is_root(graph, node) {
            let i = graph.nodes.index_of(node);
            assert(graph.nodes[i] == node);
            assert(roots.contains(graph.nodes[i]));
        }
        if schedule_of(graph).contains(node) {
            assert(roots.contains(node));
            let k = roots.index_of(node);
            assert(roots[k] == node);
        }
    }
}

/// The schedule respects the dependencies: where a node reads what a root
/// defines, the root stands in the schedule before the root of the tree of
/// the node. And the last root of the schedule has the greatest rank, so
/// that the instruction that ends the block, which nothing depends on,
/// comes last.
pub proof fn lemma_schedule_respects_dependencies(graph: Graph, e: int, i: int, j: int)
    requires
        graph.wf(),
        0 <= e < graph.links.len(),
        0 <= i < schedule_of(graph).len(),
        0 <= j < schedule_of(graph).len(),
        schedule_of(graph)[i] == graph.links[e].dependency,
        schedule_of(graph)[j] == root_of(graph, graph.links[e].dependent),
    ensures
        i < j,
        schedule_of(graph).last().rank() >= schedule_of(graph)[j].rank(),
{
    lemma_schedule(graph);
    assert(graph.nodes.contains(graph.links[e].dependent));
    lemma_root_of(graph, graph.links[e].dependent);
    let schedule = schedule_of(graph);
    if j < i {
        assert(schedule[j].rank() <= schedule[i].rank());
    }
    if j < schedule.len() - 1 {
        assert(schedule[j].rank() <= schedule[schedule.len() - 1].rank());
    }
}

/// The forest over a dependency graph.
#[derive(Debug, PartialEq, Eq)]
pub struct TreeGraph {
    graph: DependencyGraph,
}

impl View for TreeGraph {
    type V = Graph;

    closed spec fn view(&self) -> Graph {
        self.graph@
    }
}

impl TreeGraph {
    /// The forest over `graph`.
    pub fn new(graph: DependencyGraph) -> (tree: TreeGraph)
        ensures
            tree@ == graph@,
    {
        TreeGraph { graph }
    }

    /// The dependency graph that the forest is over.
    pub fn graph(&self) -> (graph: &DependencyGraph)
        ensures
            graph@ == self@,
    {
        &self.graph
    }

    /// Whether `node` is the root of a tree.
    pub fn is_root(&self, node: &Node) -> (result: bool)
        ensures
            result == is_root(self@, *node),
    {
        self.graph.num_predecessors(node) != 1
    }

    /// The root of the tree that `node` belongs to.
    pub fn root(&self, node: &Node) -> (root: Node)
        ensures
            root == root_of(self@, *node),
    {
        let mut current = *node;
        let mut steps: u32 = RANK_LIMIT;
        while steps > 0
            invariant
                climb(self@, current, steps as nat) == root_of(self@, *node),
            decreases steps,
        {
            let dependents = self.graph.predecessors(&current);
            if dependents.len() != 1 {
                return current;
            }
            current = dependents[0];
            steps = steps - 1;
        }
        current
    }

    /// Whether `node` belongs to the tree with the root `root`.
    pub fn is_member_of(&self, node: &Node, root: &Node) -> (result: bool)
        ensures
            result == (root_of(self@, *node) == *root),
    {
        self.root(node).is(root)
    }

    /// How many nodes depend on `node`: for a root, the edges that reach it
    /// from other trees; for any other node, the one that it hangs below.
    pub fn num_dependents(&self, node: &Node) -> (n: usize)
        ensures
            n == self@.dependents(*node).len(),
    {
        self.graph.num_predecessors(node)
    }

    /// For each edge that ends at `node`, in the order of the edges, the
    /// root of the tree that the edge comes from.
    pub fn predecessors(&self, node: &Node) -> (roots: Vec<Node>)
        ensures
            roots@ == tree_predecessors(self@, *node),
    {
        let dependents = self.graph.predecessors(node);
        let mut roots: Vec<Node> = Vec::new();
        let mut i: usize = 0;
        assert(roots@ + tree_roots_from(self@, dependents@, 0) =~= tree_roots_from(
            self@,
            dependents@,
            0,
        ));
        while i < dependents.len()
            invariant
                i <= dependents@.len(),
                roots@ + tree_roots_from(self@, dependents@, i as int) == tree_roots_from(
                    self@,
                    dependents@,
                    0,
                ),
            decreases dependents@.len() - i,
        {
            let ghost before = roots@;
            let root = self.root(&dependents[i]);
            roots.push(root);
            assert(roots@ + tree_roots_from(self@, dependents@, i + 1) =~= before
                + tree_roots_from(self@, dependents@, i as int));
            i = i + 1;
        }
        assert(roots@ + Seq::<Node>::empty() =~= roots@);
        roots
    }

    /// The edges that lead from a node of the tree of `tree` to
    /// `dependency`, in the order of the edges.
    pub fn edges(&self, tree: &Node, dependency: &Node) -> (links: Vec<Link>)
        ensures
            links@ == tree_links_from(self@, *tree, *dependency, 0),
    {
        let mut links: Vec<Link> = Vec::new();
        let n = self.graph.num_links();
        let mut e: usize = 0;
        assert(links@ + tree_links_from(self@, *tree, *dependency, 0) =~= tree_links_from(
            self@,
            *tree,
            *dependency,
            0,
        ));
        while e < n
            invariant
                n == self@.links.len(),
                e <= n,
                links@ + tree_links_from(self@, *tree, *dependency, e as int) == tree_links_from(
                    self@,
                    *tree,
                    *dependency,
                    0,
                ),
            decreases n - e,
        {
            let ghost before = links@;
            let link = self.graph.link(e);
            if link.dependency.is(dependency) && self.root(&link.dependent).is(tree) {
                links.push(link);
                assert(links@ + tree_links_from(self@, *tree, *dependency, e + 1) =~= before
                    + tree_links_from(self@, *tree, *dependency, e as int));
            }
            e = e + 1;
        }
        assert(links@ + Seq::<Link>::empty() =~= links@);
        links
    }

    /// The roots in the order of the nodes.
    pub fn roots(&self) -> (roots: Vec<Node>)
        ensures
            roots@ == roots_from(self@, 0),
    {
        let nodes = self.graph.nodes();
        let mut roots: Vec<Node> = Vec::new();
        let mut i: usize = 0;
        assert(roots@ + roots_from(self@, 0) =~= roots_from(self@, 0));
        while i < nodes.len()
            invariant
                nodes@ == self@.nodes,
                i <= nodes@.len(),
                roots@ + roots_from(self@, i as int) == roots_from(self@, 0),
            decreases nodes@.len() - i,
        {
            let ghost before = roots@;
            if self.is_root(&nodes[i]) {
                roots.push(nodes[i]);
                assert(roots@ + roots_from(self@, i + 1) =~= before + roots_from(self@, i as int));
            }
            i = i + 1;
        }
        assert(roots@ + Seq::<Node>::empty() =~= roots@);
        roots
    }

    /// The schedule: the roots in the order of their ranks, roots of the
    /// same rank in the order in which they were added to the graph. Every
    /// root stands behind the roots that its tree reads from, and the root
    /// of the greatest rank stands last.
    pub fn toposort(&self) -> (schedule: Vec<Node>)
        ensures
            schedule@ == schedule_of(self@),
            forall|i: int, j: int|
                0 <= i < j < schedule@.len() ==> (#[trigger] schedule@[i]).rank() <= (
                #[trigger] schedule@[j]).rank(),
            forall|node: Node|
                schedule@.contains(node) <==> self@.nodes.contains(node) && is_root(self@, node),
    {
        let roots = self.roots();
        let mut schedule: Vec<Node> = Vec::new();
        let mut k: usize = 0;
        while k < roots.len()
            invariant
                k <= roots@.len(),
                schedule@ == sorted_upto(roots@, k as int),
            decreases roots@.len() - k,
        {
            let node = roots[k];
            let mut slot: usize = 0;
            proof {
                lemma_sorted_upto(roots@, k as int);
            }
            while slot < schedule.len() && schedule[slot].index() <= node.index()
                invariant
                    slot <= schedule@.len(),
                    rank_slot(schedule@, node, 0) == rank_slot(schedule@, node, slot as int),
                decreases schedule@.len() - slot,
            {
                slot = slot + 1;
            }
            schedule.insert(slot, node);
            k = k + 1;
        }
        proof {
            lemma_schedule(self@);
            assert(schedule@ == schedule_of(self@));
            assert forall|node: Node|
                schedule@.contains(node) <==> self@.nodes.contains(node) && is_root(
                    self@,
                    node,
                ) by {
                assert(schedule_of(self@).contains(node) <==> self@.nodes.contains(node) && is_root(
                    self@,
                    node,
                ));
            }
        }
        schedule
    }

    /// Appends to `order` the nodes of the tree below `node` in the order
    /// in which they are reached: the dependencies of a node last first,
    /// each with what hangs below it, before the node itself.
    pub fn visit(&self, node: Node, depth: u16, order: &mut Vec<Node>)
        ensures
            final(order)@ == old(order)@ + visit_order(self@, node, depth as nat),
        decreases depth,
    {
        let deps = self.graph.successors(&node);
        let mut k: usize = deps.len();
        let ghost start = order@;
        assert(order@ + visit_below(self@, deps@, k as int, depth as nat) =~= start + visit_below(
            self@,
            deps@,
            deps@.len() as int,
            depth as nat,
        ));
        while k > 0
            invariant
                k <= deps@.len(),
                order@ + visit_below(self@, deps@, k as int, depth as nat) == start + visit_below(
                    self@,
                    deps@,
                    deps@.len() as int,
                    depth as nat,
                ),
            decreases k,
        {
            let ghost before = order@;
            let dep = deps[k - 1];
            let hangs = match dep {
                Node::Inst(_, _) => !self.is_root(&dep),
                Node::Stack(_) => false,
            };
            if depth > 0 && hangs {
                self.visit(dep, depth - 1, order);
                assert(order@ + visit_below(self@, deps@, k - 1, depth as nat) =~= before
                    + visit_below(self@, deps@, k as int, depth as nat));
            }
            k = k - 1;
        }
        order.push(node);
        assert(order@ =~= start + visit_order(self@, node, depth as nat));
    }

    /// The nodes of the tree with the root `root` in the order in which
    /// they are reached.
    pub fn indexed(&self, root: &Node) -> (order: Vec<Node>)
        ensures
            order@ == visit_order(self@, *root, root.rank()),
    {
        let mut order: Vec<Node> = Vec::new();
        self.visit(*root, root.index(), &mut order);
        assert(order@ =~= visit_order(self@, *root, root.rank()));
        order
    }
}

/// The smallest position at which `nodes` holds `node`, if it holds it.
pub fn node_position(nodes: &[Node], node: &Node) -> (found: Option<usize>)
    ensures
        match found {
            Some(at) => at < nodes@.len() && first_node(nodes@, *node, 0) == at && nodes@[at as int]
                == *node,
            None => first_node(nodes@, *node, 0) == nodes@.len() && !nodes@.contains(*node),
        },
{
    let mut at: usize = 0;
    while at < nodes.len()
        invariant
            at <= nodes@.len(),
            first_node(nodes@, *node, 0) == first_node(nodes@, *node, at as int),
            forall|j: int| 0 <= j < at ==> nodes@[j] != *node,
        decreases nodes@.len() - at,
    {
        if nodes[at].is(node) {
            return Some(at);
        }
        at = at + 1;
    }
    None
}

} // verus!
