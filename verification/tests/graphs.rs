use stackify::analysis::LivenessAnalysis;
use stackify::dependencies::{add_data_dependency, build_dependency_graph};
use stackify::depgraph::{DependencyGraph, Link, Node, Use};
use stackify::error::StackifyError;
use stackify::hir::{BlockData, Function, InstData, Instruction, ProgramPoint, ValueData};
use stackify::masm::Opcode;
use stackify::oracle::{is_consuming_read, is_last_dependent_visited, is_last_use};
use stackify::treegraph::{node_position, TreeGraph};

fn link(dependent: Node, dependency: Node) -> Link {
    Link { dependent, dependency }
}

/// x is read by a and b, which r reads: x and r head trees.
fn diamond() -> (DependencyGraph, Node, Node, Node, Node) {
    let x = Node::Inst(10, 1);
    let a = Node::Inst(11, 2);
    let b = Node::Inst(12, 3);
    let r = Node::Inst(13, 4);
    let mut graph = DependencyGraph::new();
    for node in [x, a, b, r] {
        graph.add_node(node);
    }
    assert_eq!(graph.add_dependency(link(a, x), 100), Ok(()));
    assert_eq!(graph.add_dependency(link(b, x), 100), Ok(()));
    assert_eq!(graph.add_dependency(link(r, a), 101), Ok(()));
    assert_eq!(graph.add_dependency(link(r, b), 102), Ok(()));
    (graph, x, a, b, r)
}

#[test]
fn nodes_are_added_once() {
    let mut graph = DependencyGraph::new();
    graph.add_node(Node::Stack(1));
    graph.add_node(Node::Inst(0, 1));
    graph.add_node(Node::Stack(1));
    assert_eq!(graph.nodes(), &vec![Node::Stack(1), Node::Inst(0, 1)]);
    assert!(graph.contains(&Node::Stack(1)));
    assert!(!graph.contains(&Node::Stack(2)));
    assert_eq!(graph.position(&Node::Inst(0, 1)), Some(1));
    assert_eq!(graph.position(&Node::Inst(0, 2)), None);
}

#[test]
fn uses_of_one_edge_are_counted() {
    let mut graph = DependencyGraph::new();
    let user = Node::Inst(1, 2);
    let def = Node::Inst(0, 1);
    graph.add_node(def);
    graph.add_node(user);
    assert_eq!(graph.add_dependency(link(user, def), 5), Ok(()));
    assert_eq!(graph.add_dependency(link(user, def), 5), Ok(()));
    assert_eq!(graph.add_dependency(link(user, def), 6), Ok(()));
    assert_eq!(graph.num_links(), 1);
    assert_eq!(graph.link(0), link(user, def));
    assert_eq!(
        graph.used(0),
        &vec![Use { value: 5, count: 2 }, Use { value: 6, count: 1 }]
    );
    assert_eq!(graph.edge_id(link(user, def)), Some(0));
    assert_eq!(graph.edge_id(link(def, user)), None);
}

#[test]
fn a_dependency_has_to_come_first() {
    let mut graph = DependencyGraph::new();
    let first = Node::Inst(0, 1);
    let second = Node::Inst(1, 2);
    graph.add_node(first);
    graph.add_node(second);
    graph.add_node(Node::Stack(3));
    assert_eq!(
        graph.add_dependency(link(first, second), 5),
        Err(StackifyError::CyclicDependencies)
    );
    assert_eq!(
        graph.add_dependency(link(first, first), 5),
        Err(StackifyError::CyclicDependencies)
    );
    assert_eq!(
        graph.add_dependency(link(Node::Stack(3), first), 5),
        Err(StackifyError::CyclicDependencies)
    );
    assert_eq!(graph.num_links(), 0);
}

#[test]
fn neighbours_come_in_the_order_of_the_edges() {
    let (graph, x, a, b, r) = diamond();
    assert_eq!(graph.successors(&r), vec![a, b]);
    assert_eq!(graph.successors(&x), vec![]);
    assert_eq!(graph.predecessors(&x), vec![a, b]);
    assert_eq!(graph.num_predecessors(&r), 0);
    assert_eq!(graph.num_predecessors(&a), 1);
}

#[test]
fn removing_a_node_removes_its_edges() {
    let (mut graph, x, a, b, r) = diamond();
    graph.remove_node(&a);
    assert_eq!(graph.nodes(), &vec![x, b, r]);
    assert_eq!(graph.num_links(), 2);
    assert_eq!(graph.link(0), link(b, x));
    assert_eq!(graph.link(1), link(r, b));
    assert_eq!(graph.used(1), &vec![Use { value: 102, count: 1 }]);
    // Removing what is not there changes nothing.
    graph.remove_node(&a);
    assert_eq!(graph.nodes(), &vec![x, b, r]);
    assert_eq!(graph.num_links(), 2);
}

#[test]
fn a_copy_of_a_graph_is_the_same_graph() {
    let (graph, ..) = diamond();
    assert_eq!(graph.clone(), graph);
}

#[test]
fn trees_and_their_roots() {
    let (graph, x, a, b, r) = diamond();
    let tree = TreeGraph::new(graph);
    assert!(tree.is_root(&x));
    assert!(tree.is_root(&r));
    assert!(!tree.is_root(&a));
    assert_eq!(tree.root(&a), r);
    assert_eq!(tree.root(&b), r);
    assert_eq!(tree.root(&x), x);
    assert!(tree.is_member_of(&a, &r));
    assert!(!tree.is_member_of(&x, &r));
    assert_eq!(tree.num_dependents(&x), 2);
    assert_eq!(tree.num_dependents(&a), 1);
    assert_eq!(tree.num_dependents(&r), 0);
    assert_eq!(tree.predecessors(&x), vec![r, r]);
    assert_eq!(tree.edges(&r, &x), vec![link(a, x), link(b, x)]);
    assert_eq!(tree.edges(&x, &r), vec![]);
    assert_eq!(tree.roots(), vec![x, r]);
}

#[test]
fn the_schedule_is_ordered_by_rank() {
    // Roots are added out of order; stack values come first, in their order.
    let mut graph = DependencyGraph::new();
    let late = Node::Inst(5, 3);
    let early = Node::Inst(4, 1);
    graph.add_node(late);
    graph.add_node(Node::Stack(8));
    graph.add_node(early);
    graph.add_node(Node::Stack(7));
    let tree = TreeGraph::new(graph);
    assert_eq!(tree.toposort(), vec![Node::Stack(8), Node::Stack(7), early, late]);

    let (graph, x, _, _, r) = diamond();
    assert_eq!(TreeGraph::new(graph).toposort(), vec![x, r]);
}

#[test]
fn a_tree_is_visited_last_dependency_first() {
    let (graph, x, a, b, r) = diamond();
    let tree = TreeGraph::new(graph);
    assert_eq!(tree.indexed(&r), vec![b, a, r]);
    assert_eq!(tree.indexed(&x), vec![x]);
    assert_eq!(node_position(&[b, a, r], &a), Some(1));
    assert_eq!(node_position(&[b, a, r], &x), None);
}

#[test]
fn the_last_reader_of_a_value() {
    let (graph, x, a, b, r) = diamond();
    let tree = TreeGraph::new(graph.clone());
    // b is reached before a, so a is the last to read x.
    assert!(is_last_dependent_visited(a, r, x, &tree, &graph));
    assert!(!is_last_dependent_visited(b, r, x, &tree, &graph));
    let schedule = [x, r];
    assert!(is_last_use(x, x, a, &schedule, &tree, &graph));
    assert!(!is_last_use(x, x, b, &schedule, &tree, &graph));
    // A value that is live after the block is never consumed.
    assert!(is_consuming_read(x, x, a, 2, false, &schedule, &tree, &graph));
    assert!(!is_consuming_read(x, x, a, 2, true, &schedule, &tree, &graph));
    assert!(!is_consuming_read(x, x, b, 2, false, &schedule, &tree, &graph));
    // A value with one reader is consumed by it.
    assert!(is_consuming_read(a, r, r, 1, false, &schedule, &tree, &graph));
}

#[test]
fn a_reader_of_two_values_of_an_instruction_is_never_the_last() {
    let mut graph = DependencyGraph::new();
    let def = Node::Inst(0, 1);
    let user = Node::Inst(1, 2);
    let other = Node::Inst(2, 3);
    for node in [def, user, other] {
        graph.add_node(node);
    }
    assert_eq!(graph.add_dependency(link(user, def), 5), Ok(()));
    assert_eq!(graph.add_dependency(link(user, def), 6), Ok(()));
    assert_eq!(graph.add_dependency(link(other, def), 5), Ok(()));
    let tree = TreeGraph::new(graph.clone());
    assert!(!is_last_dependent_visited(user, user, def, &tree, &graph));
    assert!(is_last_dependent_visited(other, other, def, &tree, &graph));
}

fn liveness(insts: usize) -> LivenessAnalysis {
    LivenessAnalysis {
        live_at_block: vec![vec![]],
        live_after_block: vec![vec![]],
        live_at_inst: vec![vec![]; insts],
        live_after_inst: vec![vec![]; insts],
    }
}

/// The analysis of a function of one block in which the values `after[i]`
/// are live after the instruction `i`.
fn live_after(after: &[&[u32]]) -> LivenessAnalysis {
    let mut live = liveness(after.len());
    for (i, values) in after.iter().enumerate() {
        live.live_after_inst[i] = values.to_vec();
    }
    live.live_after_block[0] = after[after.len() - 1].to_vec();
    live
}

fn unary(op: Opcode, arg: u32, result: u32) -> InstData {
    InstData { block: 0, ix: Instruction::UnaryOp(op), args: vec![arg], results: vec![result] }
}

/// v1 = neg v0; v2 = incr v1; v3 = not v0; ret v3
fn with_dead_chain() -> Function {
    Function {
        id: 0,
        entry: 0,
        blocks: vec![BlockData { params: vec![0], insts: vec![0, 1, 2, 3] }],
        insts: vec![
            unary(Opcode::Neg, 0, 1),
            unary(Opcode::Incr, 1, 2),
            unary(Opcode::Not, 0, 3),
            InstData { block: 0, ix: Instruction::Ret, args: vec![3], results: vec![] },
        ],
        values: vec![
            ValueData::Param { block: 0, index: 0 },
            ValueData::Inst { inst: 0, index: 0 },
            ValueData::Inst { inst: 1, index: 0 },
            ValueData::Inst { inst: 2, index: 0 },
        ],
        globals: vec![],
    }
}

/// v1 = neg v0; v2 = incr v1; ret v0
fn with_dead_pair() -> Function {
    Function {
        id: 0,
        entry: 0,
        blocks: vec![BlockData { params: vec![0], insts: vec![0, 1, 2] }],
        insts: vec![
            unary(Opcode::Neg, 0, 1),
            unary(Opcode::Incr, 1, 2),
            InstData { block: 0, ix: Instruction::Ret, args: vec![0], results: vec![] },
        ],
        values: vec![
            ValueData::Param { block: 0, index: 0 },
            ValueData::Inst { inst: 0, index: 0 },
            ValueData::Inst { inst: 1, index: 0 },
        ],
        globals: vec![],
    }
}

#[test]
fn dead_code_leaves_the_graph() {
    let f = with_dead_chain();
    assert!(f.validate());
    // v1 is live until the increment reads it, v0 until the negation of
    // it, v3 until it is returned; nobody reads v2.
    let live = live_after(&[&[0, 1], &[0], &[3], &[]]);
    let graph = build_dependency_graph(0, &f, &live).unwrap();
    assert_eq!(graph.nodes(), &vec![Node::Stack(0), Node::Inst(2, 3), Node::Inst(3, 4)]);
    assert_eq!(graph.num_links(), 2);
    assert_eq!(graph.link(0), link(Node::Inst(2, 3), Node::Stack(0)));
    assert_eq!(graph.link(1), link(Node::Inst(3, 4), Node::Inst(2, 3)));
    assert_eq!(graph.used(1), &vec![Use { value: 3, count: 1 }]);
}

#[test]
fn what_dead_code_alone_read_leaves_with_it() {
    let f = with_dead_pair();
    assert!(f.validate());
    // v1 is live after the negation, because the increment reads it; v2
    // is live nowhere, and nothing but v0 is live at the return.
    let live = live_after(&[&[0, 1], &[0], &[]]);
    let graph = build_dependency_graph(0, &f, &live).unwrap();
    assert_eq!(graph.nodes(), &vec![Node::Stack(0), Node::Inst(2, 3)]);
    assert_eq!(graph.num_links(), 1);
    assert_eq!(graph.link(0), link(Node::Inst(2, 3), Node::Stack(0)));
}

#[test]
fn what_dead_code_read_stays_if_it_is_live_after_the_block() {
    let f = with_dead_pair();
    // v1 is needed by a block that follows.
    let live = live_after(&[&[0, 1], &[0, 1], &[1]]);
    let graph = build_dependency_graph(0, &f, &live).unwrap();
    assert_eq!(graph.nodes(), &vec![Node::Inst(0, 1), Node::Stack(0), Node::Inst(2, 3)]);
    assert_eq!(graph.num_links(), 2);
}

#[test]
fn dead_code_that_two_dead_instructions_read_leaves_with_the_second() {
    // v1 = neg v0; v2 = incr v1; v3 = not v1; ret v0
    let mut f = with_dead_chain();
    f.insts[2] = unary(Opcode::Not, 1, 3);
    f.insts[3].args = vec![0];
    assert!(f.validate());
    let live = live_after(&[&[0, 1], &[0, 1], &[0], &[]]);
    let graph = build_dependency_graph(0, &f, &live).unwrap();
    assert_eq!(graph.nodes(), &vec![Node::Stack(0), Node::Inst(3, 4)]);
    assert_eq!(graph.num_links(), 1);
    assert_eq!(graph.link(0), link(Node::Inst(3, 4), Node::Stack(0)));

    // With v3 needed after the block, v1 is still needed.
    let live = live_after(&[&[0, 1], &[0, 1], &[0, 3], &[3]]);
    let graph = build_dependency_graph(0, &f, &live).unwrap();
    assert_eq!(
        graph.nodes(),
        &vec![Node::Inst(0, 1), Node::Stack(0), Node::Inst(2, 3), Node::Inst(3, 4)]
    );
}

#[test]
fn what_is_live_after_it_stays() {
    let f = with_dead_chain();
    // v2 is needed after the block.
    let live = live_after(&[&[0, 1], &[0, 2], &[2, 3], &[2]]);
    let graph = build_dependency_graph(0, &f, &live).unwrap();
    assert_eq!(
        graph.nodes(),
        &vec![
            Node::Inst(0, 1),
            Node::Stack(0),
            Node::Inst(1, 2),
            Node::Inst(2, 3),
            Node::Inst(3, 4)
        ]
    );
}

#[test]
fn what_has_side_effects_stays() {
    let mut f = with_dead_chain();
    f.insts[1] =
        InstData { block: 0, ix: Instruction::PrimOp(Opcode::Assert), args: vec![1], results: vec![] };
    let live = live_after(&[&[0, 1], &[0], &[3], &[]]);
    let graph = build_dependency_graph(0, &f, &live).unwrap();
    assert!(graph.contains(&Node::Inst(1, 2)));
    // And so does what it reads.
    assert!(graph.contains(&Node::Inst(0, 1)));
}

#[test]
fn values_from_other_blocks_are_stack_nodes() {
    // block1 reads v1, which block0 defines.
    let f = Function {
        id: 0,
        entry: 0,
        blocks: vec![
            BlockData { params: vec![0], insts: vec![0, 1] },
            BlockData { params: vec![], insts: vec![2] },
        ],
        insts: vec![
            unary(Opcode::Neg, 0, 1),
            InstData {
                block: 0,
                ix: Instruction::Br { destination: 1, args: vec![] },
                args: vec![],
                results: vec![],
            },
            InstData { block: 1, ix: Instruction::Ret, args: vec![1], results: vec![] },
        ],
        values: vec![ValueData::Param { block: 0, index: 0 }, ValueData::Inst { inst: 0, index: 0 }],
        globals: vec![],
    };
    assert!(f.validate());
    let mut live = liveness(3);
    live.live_at_block = vec![vec![], vec![]];
    live.live_after_block = vec![vec![], vec![]];
    let graph = build_dependency_graph(1, &f, &live).unwrap();
    assert_eq!(graph.nodes(), &vec![Node::Inst(2, 1), Node::Stack(1)]);

    // Branch arguments are read by the branch.
    let mut g = f.clone();
    g.insts[1].ix = Instruction::Br { destination: 1, args: vec![1, 1] };
    live.live_after_inst[0] = vec![1];
    let graph = build_dependency_graph(0, &g, &live).unwrap();
    assert_eq!(graph.edge_id(link(Node::Inst(1, 2), Node::Inst(0, 1))), Some(1));
    assert_eq!(graph.used(1), &vec![Use { value: 1, count: 2 }]);
}

#[test]
fn a_read_is_recorded_against_what_defines_the_value() {
    let f = with_dead_chain();
    let mut graph = DependencyGraph::new();
    let user = Node::Inst(1, 2);
    graph.add_node(user);
    assert_eq!(add_data_dependency(user, 1, ProgramPoint::Inst(1), &f, &mut graph), Ok(()));
    assert_eq!(add_data_dependency(user, 0, ProgramPoint::Block(0), &f, &mut graph), Ok(()));
    assert_eq!(graph.nodes(), &vec![user, Node::Inst(0, 1), Node::Stack(0)]);
    assert_eq!(graph.successors(&user), vec![Node::Inst(0, 1), Node::Stack(0)]);
    // v3 is defined after the reader.
    assert_eq!(
        add_data_dependency(user, 3, ProgramPoint::Inst(1), &f, &mut graph),
        Err(StackifyError::CyclicDependencies)
    );
    assert_eq!(graph.num_links(), 2);
}

#[test]
fn an_instruction_that_its_block_does_not_list_is_reported() {
    let mut f = with_dead_chain();
    // Instruction 1 stays in the table and leaves the block.
    f.blocks[0].insts = vec![0, 2, 3];
    f.insts[2].args = vec![2];
    assert!(f.validate());
    assert_eq!(
        build_dependency_graph(0, &f, &liveness(4)).err(),
        Some(StackifyError::MalformedFunction)
    );
}

#[test]
fn the_schedule_puts_definitions_first_and_the_terminator_last() {
    // v1 = neg v0; v2 = incr v1; v3 = not v0; ret v3, with v2 live after the
    // block: v0 is read twice and heads a tree, as do v2 and the return.
    let f = Function {
        id: 0,
        entry: 0,
        blocks: vec![BlockData { params: vec![0], insts: vec![0, 1, 2, 3] }],
        insts: vec![
            unary(Opcode::Neg, 0, 1),
            unary(Opcode::Incr, 1, 2),
            unary(Opcode::Not, 0, 3),
            InstData { block: 0, ix: Instruction::Ret, args: vec![3], results: vec![] },
        ],
        values: vec![
            ValueData::Param { block: 0, index: 0 },
            ValueData::Inst { inst: 0, index: 0 },
            ValueData::Inst { inst: 1, index: 0 },
            ValueData::Inst { inst: 2, index: 0 },
        ],
        globals: vec![],
    };
    let mut live = liveness(4);
    live.live_after_inst[1] = vec![2];
    let graph = build_dependency_graph(0, &f, &live).unwrap();
    let tree = TreeGraph::new(graph.clone());
    let schedule = tree.toposort();
    assert_eq!(schedule, vec![Node::Stack(0), Node::Inst(1, 2), Node::Inst(3, 4)]);
    // Every edge leads from a tree to a root that stands before it.
    for e in 0..graph.num_links() {
        let link = graph.link(e);
        if tree.is_root(&link.dependency) {
            let definition = schedule.iter().position(|n| *n == link.dependency).unwrap();
            let reader = schedule.iter().position(|n| *n == tree.root(&link.dependent)).unwrap();
            assert!(definition < reader);
        }
    }
}
