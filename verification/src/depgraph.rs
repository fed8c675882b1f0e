//! The dependency graph of one block: which instruction reads what another
//! instruction of the block defines, or what is on the operand stack when the
//! block is entered.

use vstd::prelude::*;
use crate::error::StackifyError;
use crate::hir::{Inst, Value};

verus! {

/// A node of the dependency graph.
#[derive(Clone, Copy, Debug, PartialEq, Eq, Hash)]
pub enum Node {
    /// A value that is on the operand stack when the block is entered.
    Stack(Value),
    /// An instruction of the block, with its position in the block, counted
    /// from one.
    Inst(Inst, u16),
}

impl Node {
    /// The position in the block for an instruction, zero for a stack value.
    /// Every dependency has a smaller rank than what depends on it.
    pub open spec fn rank(self) -> nat {
        match self {
            Node::Stack(_) => 0,
            Node::Inst(_, index) => index as nat,
        }
    }

    /// The position in the block for an instruction, zero for a stack value.
    pub fn index(&self) -> (rank: u16)
        ensures
            rank == self.rank(),
    {
        match self {
            Node::Stack(_) => 0,
            Node::Inst(_, index) => *index,
        }
    }

    /// Whether the two nodes are the same.
    pub fn is(&self, other: &Node) -> (same: bool)
        ensures
            same == (*self == *other),
    {
        match (self, other) {
            (Node::Stack(a), Node::Stack(b)) => *a == *b,
            (Node::Inst(a, i), Node::Inst(b, j)) => *a == *b && *i == *j,
            _ => false,
        }
    }

    /// The instruction that the node stands for, if it stands for one.
    pub fn as_instruction(&self) -> (inst: Option<Inst>)
        ensures
            inst == (match *self {
                Node::Stack(_) => None,
                Node::Inst(inst, _) => Some(inst),
            }),
    {
        match self {
            Node::Stack(_) => None,
            Node::Inst(inst, _) => Some(*inst),
        }
    }
}

/// How often a dependent reads one value of its dependency.
#[derive(Clone, Copy, Debug, PartialEq, Eq, Hash)]
pub struct Use {
    pub value: Value,
    pub count: u32,
}

/// An edge of the dependency graph, from what depends to what it depends on.
#[derive(Clone, Copy, Debug, PartialEq, Eq, Hash)]
pub struct Link {
    pub dependent: Node,
    pub dependency: Node,
}

/// The dependents of `node` among the edges at `from` and after, in the
/// order of the edges.
pub open spec fn dependents_from(links: Seq<Link>, node: Node, from: int) -> Seq<Node>
    decreases links.len() - from,
{
    if from < 0 || from >= links.len() {
        Seq::empty()
    } else if links[from].dependency == node {
        seq![links[from].dependent] + dependents_from(links, node, from + 1)
    } else {
        dependents_from(links, node, from + 1)
    }
}

/// The dependencies of `node` among the edges at `from` and after, in the
/// order of the edges.
pub open spec fn dependencies_from(links: Seq<Link>, node: Node, from: int) -> Seq<Node>
    decreases links.len() - from,
{
    if from < 0 || from >= links.len() {
        Seq::empty()
    } else if links[from].dependent == node {
        seq![links[from].dependency] + dependencies_from(links, node, from + 1)
    } else {
        dependencies_from(links, node, from + 1)
    }
}

/// The uses with one more of `value`: its count goes up if it is listed at
/// `from` or after, else it is listed behind the others with a count of one.
/// A count that cannot go up stays.
pub open spec fn with_use_from(used: Seq<Use>, value: Value, from: int) -> Seq<Use>
    decreases used.len() - from,
{
    if from < 0 || from >= used.len() {
        used.push(Use { value, count: 1 })
    } else if used[from].value == value {
        if used[from].count < u32::MAX {
            used.update(from, Use { value, count: (used[from].count + 1) as u32 })
        } else {
            used
        }
    } else {
        with_use_from(used, value, from + 1)
    }
}

/// The smallest place at or after `from` that holds `link`, or the number of
/// edges if there is none.
pub open spec fn first_link(links: Seq<Link>, link: Link, from: int) -> int
    decreases links.len() - from,
{
    if from < 0 || from >= links.len() {
        links.len() as int
    } else if links[from] == link {
        from
    } else {
        first_link(links, link, from + 1)
    }
}

/// A dependency graph as a mathematical value.
pub struct Graph {
    /// The nodes in the order in which they were added.
    pub nodes: Seq<Node>,
    /// The edges in the order in which they were added.
    pub links: Seq<Link>,
    /// For each edge, the values read along it.
    pub used: Seq<Seq<Use>>,
}

impl Graph {
    /// The graph without nodes.
    pub open spec fn empty() -> Graph {
        Graph { nodes: Seq::empty(), links: Seq::empty(), used: Seq::empty() }
    }

    /// Whether the graph is sound: no node and no edge is there twice, every
    /// edge joins two nodes of the graph, and leads from an instruction to
    /// something of smaller rank.
    pub open spec fn wf(self) -> bool {
        &&& self.nodes.no_duplicates()
        &&& self.used.len() == self.links.len()
        &&& forall|e: int|
            0 <= e < self.links.len() ==> {
                &&& self.nodes.contains((#[trigger] self.links[e]).dependent)
                &&& self.nodes.contains(self.links[e].dependency)
                &&& self.links[e].dependency.rank() < self.links[e].dependent.rank()
            }
        &&& forall|d: int, e: int|
            0 <= d < e < self.links.len() ==> #[trigger] self.links[d] != #[trigger] self.links[e]
    }

    /// What depends on `node`, in the order of the edges.
    pub open spec fn dependents(self, node: Node) -> Seq<Node> {
        dependents_from(self.links, node, 0)
    }

    /// What `node` depends on, in the order of the edges.
    pub open spec fn dependencies(self, node: Node) -> Seq<Node> {
        dependencies_from(self.links, node, 0)
    }

    /// The place of the edge between the two nodes, if there is one.
    pub open spec fn link_index(self, link: Link) -> Option<int> {
        if first_link(self.links, link, 0) < self.links.len() {
            Some(first_link(self.links, link, 0))
        } else {
            None
        }
    }

    /// The graph with `node` in it.
    pub open spec fn with_node(self, node: Node) -> Graph {
        if self.nodes.contains(node) {
            self
        } else {
            Graph { nodes: self.nodes.push(node), ..self }
        }
    }

    /// The graph in which `link.dependent` reads `value` of `link.dependency`
    /// once more.
    pub open spec fn with_use(self, link: Link, value: Value) -> Graph {
        match self.link_index(link) {
            Some(e) => Graph {
                used: self.used.update(e, with_use_from(self.used[e], value, 0)),
                ..self
            },
            None => Graph {
                links: self.links.push(link),
                used: self.used.push(seq![Use { value, count: 1 }]),
                ..self
            },
        }
    }

    /// Whether the edge at `e` stays when `node` leaves the graph.
    pub open spec fn clear_of(self, e: int, node: Node) -> bool {
        self.links[e].dependent != node && self.links[e].dependency != node
    }

    /// The places at `from` and after of the edges that stay when `node`
    /// leaves the graph.
    pub open spec fn staying_from(self, node: Node, from: int) -> Seq<int>
        decreases self.links.len() - from,
    {
        if from < 0 || from >= self.links.len() {
            Seq::empty()
        } else if self.clear_of(from, node) {
            seq![from] + self.staying_from(node, from + 1)
        } else {
            self.staying_from(node, from + 1)
        }
    }

    /// The graph without `node` and without the edges that begin or end at
    /// it.
    pub open spec fn without(self, node: Node) -> Graph {
        let staying = self.staying_from(node, 0);
        Graph {
            nodes: if self.nodes.contains(node) {
                self.nodes.remove(self.nodes.index_of(node))
            } else {
                self.nodes
            },
            links: Seq::new(staying.len(), |i: int| self.links[staying[i]]),
            used: Seq::new(staying.len(), |i: int| self.used[staying[i]]),
        }
    }
}

/// The places that stay form a rising run of places of the graph, each of an
/// edge clear of the node, and no such edge is left out.
pub proof fn lemma_staying(graph: Graph, node: Node, from: int)
    requires
        0 <= from <= graph.links.len(),
    ensures
        ({
            let staying = graph.staying_from(node, from);
            &&& forall|i: int|
                0 <= i < staying.len() ==> from <= #[trigger] staying[i] < graph.links.len()
                    && graph.clear_of(staying[i], node)
            &&& forall|i: int, j: int|
                0 <= i < j < staying.len() ==> #[trigger] staying[i] < #[trigger] staying[j]
            &&& forall|e: int|
                from <= e < graph.links.len() && graph.clear_of(e, node) ==> staying.contains(e)
        }),
    decreases graph.links.len() - from,
{
    let staying = graph.staying_from(node, from);
    if from < graph.links.len() {
        lemma_staying(graph, node, from + 1);
        let rest = graph.staying_from(node, from + 1);
        if graph.clear_of(from, node) {
            assert(staying =~= seq![from] + rest);
            assert forall|i: int, j: int| 0 <= i < j < staying.len() implies #[trigger] staying[i]
                < #[trigger] staying[j] by {
                assert(staying[j] == rest[j - 1]);
                if i > 0 {
                    assert(staying[i] == rest[i - 1]);
                }
            }
            assert forall|e: int|
                from <= e < graph.links.len() && graph.clear_of(e, node) implies staying.contains(
                e,
            ) by {
                if e == from {
                    assert(staying[0] == e);
                } else {
                    assert(rest.contains(e));
                    let i = rest.index_of(e);
                    assert(rest[i] == e);
                    assert(staying[i + 1] == e);
                }
            }
            assert forall|i: int| 0 <= i < staying.len() implies from <= #[trigger] staying[i]
                < graph.links.len() && graph.clear_of(staying[i], node) by {
                if i > 0 {
                    assert(staying[i] == rest[i - 1]);
                }
            }
        }
    }
}

/// Taking a node out of a sound graph leaves a sound graph that lacks the
/// node.
pub proof fn lemma_without_wf(graph: Graph, node: Node)
    requires
        graph.wf(),
    ensures
        graph.without(node).wf(),
        !graph.without(node).nodes.contains(node),
        forall|other: Node|
            other != node ==> graph.without(node).nodes.contains(other) == graph.nodes.contains(
                other,
            ),
{
    let after = graph.without(node);
    let staying = graph.staying_from(node, 0);
    lemma_staying(graph, node, 0);
    if graph.nodes.contains(node) {
        let at = graph.nodes.index_of(node);
        assert(graph.nodes[at] == node);
        assert forall|other: Node| other != node implies after.nodes.contains(other)
            == graph.nodes.contains(other) by {
            if graph.nodes.contains(other) {
                let i = graph.nodes.index_of(other);
                assert(graph.nodes[i] == other);
                if i < at {
                    assert(after.nodes[i] == other);
                } else {
                    assert(after.nodes[i - 1] == other);
                }
            }
            if after.nodes.contains(other) {
                let i = after.nodes.index_of(other);
                assert(after.nodes[i] == other);
                if i < at {
                    assert(graph.nodes[i] == other);
                } else {
                    assert(graph.nodes[i + 1] == other);
                }
            }
        }
        assert(!after.nodes.contains(node)) by {
            if after.nodes.contains(node) {
                let i = after.nodes.index_of(node);
                assert(after.nodes[i] == node);
                if i < at {
                    assert(graph.nodes[i] == node);
                } else {
                    assert(graph.nodes[i + 1] == node);
                }
            }
        }
        assert(after.nodes.no_duplicates()) by {
            assert forall|i: int, j: int|
                0 <= i < after.nodes.len() && 0 <= j < after.nodes.len() && i != j implies after.nodes[i]
                != after.nodes[j] by {
                let a = if i < at {
                    i
                } else {
                    i + 1
                };
                let b = if j < at {
                    j
                } else {
                    j + 1
                };
                assert(after.nodes[i] == graph.nodes[a]);
                assert(after.nodes[j] == graph.nodes[b]);
            }
        }
    }
    assert forall|e: int| 0 <= e < after.links.len() implies {
        &&& after.nodes.contains((#[trigger] after.links[e]).dependent)
        &&& after.nodes.contains(after.links[e].dependency)
        &&& after.links[e].dependency.rank() < after.links[e].dependent.rank()
    } by {
        let o = staying[e];
        assert(after.links[e] == graph.links[o]);
        assert(graph.clear_of(o, node));
    }
    assert forall|d: int, e: int| 0 <= d < e < after.links.len() implies #[trigger] after.links[d]
        != #[trigger] after.links[e] by {
        assert(staying[d] < staying[e]);
        assert(after.links[d] == graph.links[staying[d]]);
        assert(after.links[e] == graph.links[staying[e]]);
    }
}

/// The dependency graph of a block.
#[derive(Debug, PartialEq, Eq)]
pub struct DependencyGraph {
    nodes: Vec<Node>,
    links: Vec<Link>,
    used: Vec<Vec<Use>>,
}

impl View for DependencyGraph {
    type V = Graph;

    closed spec fn view(&self) -> Graph {
        Graph {
            nodes: self.nodes@,
            links: self.links@,
            used: Seq::new(self.used@.len(), |i: int| self.used@[i]@),
        }
    }
}

impl Clone for DependencyGraph {
    fn clone(&self) -> (copy: Self)
        ensures
            copy@ == self@,
    {
        let mut used: Vec<Vec<Use>> = Vec::new();
        let mut i: usize = 0;
        while i < self.used.len()
            invariant
                i <= self.used@.len(),
                used@.len() == i,
                forall|j: int| 0 <= j < i ==> (#[trigger] used@[j])@ == self.used@[j]@,
            decreases self.used@.len() - i,
        {
            let row: Vec<Use> = self.used[i].clone();
            assert(row@ =~= self.used@[i as int]@);
            used.push(row);
            i = i + 1;
        }
        let copy = DependencyGraph { nodes: self.nodes.clone(), links: self.links.clone(), used };
        assert(copy.nodes@ =~= self.nodes@);
        assert(copy.links@ =~= self.links@);
        assert(copy@.used =~= self@.used);
        copy
    }
}

impl DependencyGraph {
    /// The graph without nodes.
    pub fn new() -> (graph: DependencyGraph)
        ensures
            graph@ == Graph::empty(),
    {
        let graph = DependencyGraph { nodes: Vec::new(), links: Vec::new(), used: Vec::new() };
        assert(graph@.used =~= Seq::<Seq<Use>>::empty());
        graph
    }

    /// The nodes in the order in which they were added.
    pub fn nodes(&self) -> (nodes: &Vec<Node>)
        ensures
            nodes@ == self@.nodes,
    {
        &self.nodes
    }

    /// The number of edges.
    pub fn num_links(&self) -> (n: usize)
        ensures
            n == self@.links.len(),
    {
        self.links.len()
    }

    /// The edge at place `e`.
    pub fn link(&self, e: usize) -> (link: Link)
        requires
            e < self@.links.len(),
        ensures
            link == self@.links[e as int],
    {
        self.links[e]
    }

    /// The values read along the edge at place `e`.
    pub fn used(&self, e: usize) -> (used: &Vec<Use>)
        requires
            e < self@.links.len(),
            self@.used.len() == self@.links.len(),
        ensures
            used@ == self@.used[e as int],
    {
        &self.used[e]
    }

    /// Whether `node` is in the graph.
    pub fn contains(&self, node: &Node) -> (found: bool)
        ensures
            found == self@.nodes.contains(*node),
    {
        let mut i: usize = 0;
        while i < self.nodes.len()
            invariant
                i <= self.nodes@.len(),
                forall|j: int| 0 <= j < i ==> self.nodes@[j] != *node,
            decreases self.nodes@.len() - i,
        {
            if self.nodes[i].is(node) {
                return true;
            }
            i = i + 1;
        }
        false
    }

    /// Puts `node` in the graph, unless it is there.
    pub fn add_node(&mut self, node: Node)
        ensures
            final(self)@ == old(self)@.with_node(node),
            old(self)@.wf() ==> final(self)@.wf(),
            final(self)@.nodes.contains(node),
            forall|other: Node| old(self)@.nodes.contains(other) ==> final(self)@.nodes.contains(other),
            forall|other: Node|
                final(self)@.nodes.contains(other) ==> old(self)@.nodes.contains(other) || other
                    == node,
    {
        if !self.contains(&node) {
            self.nodes.push(node);
            proof {
                assert forall|other: Node| self@.nodes.contains(other) implies old(
                    self,
                )@.nodes.contains(other) || other == node by {
                    let i = self@.nodes.index_of(other);
                    assert(self@.nodes[i] == other);
                    if i < old(self)@.nodes.len() {
                        assert(old(self)@.nodes[i] == other);
                    }
                }
                assert(self@.used =~= old(self)@.used);
                assert(self@.nodes[old(self)@.nodes.len() as int] == node);
                assert forall|other: Node| old(self)@.nodes.contains(other) implies self@.nodes.contains(
                    other,
                ) by {
                    let i = old(self)@.nodes.index_of(other);
                    assert(self@.nodes[i] == other);
                }
                if old(self)@.wf() {
                    assert forall|e: int| 0 <= e < self@.links.len() implies {
                        &&& self@.nodes.contains((#[trigger] self@.links[e]).dependent)
                        &&& self@.nodes.contains(self@.links[e].dependency)
                    } by {
                        assert(old(self)@.nodes.contains(old(self)@.links[e].dependent));
                        assert(old(self)@.nodes.contains(old(self)@.links[e].dependency));
                    }
                }
            }
        }
    }

    /// The place of the edge `link`, if the graph has it.
    pub fn edge_id(&self, link: Link) -> (found: Option<usize>)
        ensures
            match found {
                Some(e) => e < self@.links.len() && self@.links[e as int] == link
                    && self@.link_index(link) == Some(e as int),
                None => !self@.links.contains(link) && self@.link_index(link) is None,
            },
    {
        let mut i: usize = 0;
        while i < self.links.len()
            invariant
                i <= self.links@.len(),
                forall|j: int| 0 <= j < i ==> self.links@[j] != link,
                first_link(self.links@, link, 0) == first_link(self.links@, link, i as int),
            decreases self.links@.len() - i,
        {
            let at = self.links[i];
            if at.dependent.is(&link.dependent) && at.dependency.is(&link.dependency) {
                return Some(i);
            }
            i = i + 1;
        }
        None
    }

    /// The place of `node` among the nodes, if it is in the graph.
    pub fn position(&self, node: &Node) -> (found: Option<usize>)
        ensures
            match found {
                Some(i) => i < self@.nodes.len() && self@.nodes[i as int] == *node && forall|j: int|
                    0 <= j < i ==> self@.nodes[j] != *node,
                None => !self@.nodes.contains(*node),
            },
    {
        let mut i: usize = 0;
        while i < self.nodes.len()
            invariant
                i <= self.nodes@.len(),
                forall|j: int| 0 <= j < i ==> self.nodes@[j] != *node,
            decreases self.nodes@.len() - i,
        {
            if self.nodes[i].is(node) {
                return Some(i);
            }
            i = i + 1;
        }
        None
    }

    /// Records that `link.dependent` reads `value` of `link.dependency`. Both
    /// must be nodes of the graph. Fails if the dependent is no instruction
    /// or does not come after the dependency.
    pub fn add_dependency(&mut self, link: Link, value: Value) -> (result: Result<
        (),
        StackifyError,
    >)
        requires
            old(self)@.wf(),
            old(self)@.nodes.contains(link.dependent),
            old(self)@.nodes.contains(link.dependency),
        ensures
            link.dependency.rank() < link.dependent.rank() <==> result is Ok,
            result is Ok ==> final(self)@ == old(self)@.with_use(link, value),
            result is Err ==> final(self)@ == old(self)@ && result == Err::<(), StackifyError>(
                StackifyError::CyclicDependencies,
            ),
            final(self)@.wf(),
            final(self)@.nodes == old(self)@.nodes,
    {
        if link.dependency.index() >= link.dependent.index() {
            return Err(StackifyError::CyclicDependencies);
        }
        match self.edge_id(link) {
            Some(e) => {
                let ghost before = self.used@[e as int]@;
                let mut row: Vec<Use> = Vec::new();
                std::mem::swap(&mut row, &mut self.used[e]);
                let mut i: usize = 0;
                while i < row.len() && row[i].value != value
                    invariant
                        i <= row@.len(),
                        row@ == before,
                        with_use_from(before, value, 0) == with_use_from(before, value, i as int),
                    decreases row@.len() - i,
                {
                    i = i + 1;
                }
                if i < row.len() {
                    let at = row[i];
                    if at.count < u32::MAX {
                        row[i] = Use { value, count: at.count + 1 };
                    }
                } else {
                    row.push(Use { value, count: 1 });
                }
                assert(row@ == with_use_from(before, value, 0));
                std::mem::swap(&mut row, &mut self.used[e]);
                proof {
                    assert(self@.used =~= old(self)@.used.update(
                        e as int,
                        with_use_from(old(self)@.used[e as int], value, 0),
                    ));
                }
            },
            None => {
                self.links.push(link);
                let mut row: Vec<Use> = Vec::new();
                row.push(Use { value, count: 1 });
                self.used.push(row);
                proof {
                    assert(row@ =~= seq![Use { value, count: 1 }]);
                    assert(self@.used =~= old(self)@.used.push(seq![Use { value, count: 1 }]));
                    assert forall|e: int| 0 <= e < self@.links.len() implies {
                        &&& self@.nodes.contains((#[trigger] self@.links[e]).dependent)
                        &&& self@.nodes.contains(self@.links[e].dependency)
                        &&& self@.links[e].dependency.rank() < self@.links[e].dependent.rank()
                    } by {
                        if e < old(self)@.links.len() {
                            assert(self@.links[e] == old(self)@.links[e]);
                        }
                    }
                    assert forall|d: int, e: int| 0 <= d < e < self@.links.len() implies #[trigger] self@.links[d]
                        != #[trigger] self@.links[e] by {
                        if e < old(self)@.links.len() {
                            assert(self@.links[e] == old(self)@.links[e]);
                            assert(self@.links[d] == old(self)@.links[d]);
                        } else {
                            assert(old(self)@.links[d] == self@.links[d]);
                        }
                    }
                }
            },
        }
        Ok(())
    }

    /// What depends on `node`, in the order of the edges.
    pub fn predecessors(&self, node: &Node) -> (dependents: Vec<Node>)
        ensures
            dependents@ == self@.dependents(*node),
    {
        let mut dependents: Vec<Node> = Vec::new();
        let mut i: usize = 0;
        assert(dependents@ + dependents_from(self.links@, *node, 0) =~= dependents_from(
            self.links@,
            *node,
            0,
        ));
        while i < self.links.len()
            invariant
                i <= self.links@.len(),
                dependents@ + dependents_from(self.links@, *node, i as int) == dependents_from(
                    self.links@,
                    *node,
                    0,
                ),
            decreases self.links@.len() - i,
        {
            let ghost before = dependents@;
            if self.links[i].dependency.is(node) {
                dependents.push(self.links[i].dependent);
                assert(dependents@ + dependents_from(self.links@, *node, i + 1) =~= before
                    + dependents_from(self.links@, *node, i as int));
            }
            i = i + 1;
        }
        assert(dependents@ + Seq::<Node>::empty() =~= dependents@);
        dependents
    }

    /// How many nodes depend on `node`.
    pub fn num_predecessors(&self, node: &Node) -> (n: usize)
        ensures
            n == self@.dependents(*node).len(),
    {
        self.predecessors(node).len()
    }

    /// What `node` depends on, in the order of the edges.
    pub fn successors(&self, node: &Node) -> (dependencies: Vec<Node>)
        ensures
            dependencies@ == self@.dependencies(*node),
    {
        let mut dependencies: Vec<Node> = Vec::new();
        let mut i: usize = 0;
        assert(dependencies@ + dependencies_from(self.links@, *node, 0) =~= dependencies_from(
            self.links@,
            *node,
            0,
        ));
        while i < self.links.len()
            invariant
                i <= self.links@.len(),
                dependencies@ + dependencies_from(self.links@, *node, i as int)
                    == dependencies_from(self.links@, *node, 0),
            decreases self.links@.len() - i,
        {
            let ghost before = dependencies@;
            if self.links[i].dependent.is(node) {
                dependencies.push(self.links[i].dependency);
                assert(dependencies@ + dependencies_from(self.links@, *node, i + 1) =~= before
                    + dependencies_from(self.links@, *node, i as int));
            }
            i = i + 1;
        }
        assert(dependencies@ + Seq::<Node>::empty() =~= dependencies@);
        dependencies
    }

    /// Takes `node` out of the graph, with the edges that begin or end at
    /// it.
    pub fn remove_node(&mut self, node: &Node)
        requires
            old(self)@.wf(),
        ensures
            final(self)@ == old(self)@.without(*node),
            final(self)@.wf(),
            !final(self)@.nodes.contains(*node),
            forall|other: Node|
                other != *node ==> final(self)@.nodes.contains(other) == old(self)@.nodes.contains(
                    other,
                ),
    {
        let ghost before = self@;
        match self.position(node) {
            Some(i) => {
                proof {
                    let w = before.nodes.index_of(*node);
                    assert(before.nodes[i as int] == *node);
                    assert(before.nodes[w] == *node);
                    assert(w == i);
                }
                self.nodes.remove(i);
                assert(self@.used =~= before.used);
            },
            None => {},
        }
        assert(self.nodes@ == before.without(*node).nodes);
        let mut links: Vec<Link> = Vec::new();
        let mut used: Vec<Vec<Use>> = Vec::new();
        let ghost mut kept: Seq<int> = Seq::empty();
        let mut e: usize = 0;
        assert(kept + before.staying_from(*node, 0) =~= before.staying_from(*node, 0));
        while e < self.links.len()
            invariant
                before.wf(),
                e <= self.links@.len(),
                self.links@ == before.links,
                self.nodes@ == before.without(*node).nodes,
                self.used@.len() == before.used.len(),
                forall|j: int| e <= j < self.used@.len() ==> (#[trigger] self.used@[j])@ == before.used[j],
                kept + before.staying_from(*node, e as int) == before.staying_from(*node, 0),
                links@.len() == kept.len(),
                used@.len() == kept.len(),
                forall|j: int| 0 <= j < kept.len() ==> 0 <= #[trigger] kept[j] < before.links.len(),
                forall|j: int| 0 <= j < kept.len() ==> #[trigger] links@[j] == before.links[kept[j]],
                forall|j: int| 0 <= j < kept.len() ==> (#[trigger] used@[j])@ == before.used[kept[j]],
            decreases self.links@.len() - e,
        {
            let link = self.links[e];
            if !link.dependent.is(node) && !link.dependency.is(node) {
                let mut row: Vec<Use> = Vec::new();
                std::mem::swap(&mut row, &mut self.used[e]);
                links.push(link);
                used.push(row);
                proof {
                    assert((kept.push(e as int)) + before.staying_from(*node, e + 1) =~= kept
                        + before.staying_from(*node, e as int));
                    kept = kept.push(e as int);
                }
            }
            e = e + 1;
        }
        self.links = links;
        self.used = used;
        proof {
            assert(kept + Seq::<int>::empty() =~= kept);
            assert(self@.links =~= before.without(*node).links);
            assert(self@.used =~= before.without(*node).used);
            lemma_without_wf(before, *node);
        }
    }
}

} // verus!
