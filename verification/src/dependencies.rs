//! Building the dependency graph of a block from its instructions, and
//! clearing it of the instructions whose results nobody needs.

use vstd::prelude::*;
use std::collections::VecDeque;
use crate::analysis::LivenessAnalysis;
use crate::depgraph::{lemma_without_wf, DependencyGraph, Graph, Link, Node};
use crate::error::StackifyError;
use crate::hir::{Block, Function, Inst, ProgramPoint, Value, ValueData};
use crate::treegraph::{
    is_root, lemma_dependencies_rank, lemma_dependents_rank, lemma_schedule, schedule_of,
};

verus! {

/// The smallest position at or after `from` at which `insts` holds `inst`,
/// or the length of `insts` if there is none.
pub open spec fn first_position(insts: Seq<Inst>, inst: Inst, from: int) -> int
    decreases insts.len() - from,
{
    if from < 0 || from >= insts.len() {
        insts.len() as int
    } else if insts[from] == inst {
        from
    } else {
        first_position(insts, inst, from + 1)
    }
}

/// The block that a program point lies in.
pub open spec fn pp_block(function: &Function, pp: ProgramPoint) -> Block {
    match pp {
        ProgramPoint::Block(block) => block,
        ProgramPoint::Inst(inst) => function.insts@[inst as int].block,
    }
}

/// Whether the program point names something of the function.
pub open spec fn pp_known(function: &Function, pp: ProgramPoint) -> bool {
    match pp {
        ProgramPoint::Block(block) => (block as int) < function.blocks@.len(),
        ProgramPoint::Inst(inst) => (inst as int) < function.insts@.len(),
    }
}

/// The node that stands for `value` in the dependency graph of `block`: the
/// instruction that defines it, if that is an instruction of the block, else
/// the value as found on the operand stack. There is none if the defining
/// instruction claims to be in the block and the block does not list it.
pub open spec fn target_node(function: &Function, block: Block, value: Value) -> Option<Node> {
    match function.values@[value as int] {
        ValueData::Param { .. } => Some(Node::Stack(value)),
        ValueData::Inst { inst, .. } => {
            if function.insts@[inst as int].block == block {
                let insts = function.blocks@[block as int].insts@;
                let at = first_position(insts, inst, 0);
                if at < insts.len() {
                    Some(Node::Inst(inst, (at + 1) as u16))
                } else {
                    None
                }
            } else {
                Some(Node::Stack(value))
            }
        },
    }
}

/// Why the read of `value` by `node` cannot be recorded, if it cannot: the
/// function is inconsistent about where the value is defined, or the value
/// is defined in the block at or after the node.
pub open spec fn dependency_error(
    function: &Function,
    block: Block,
    node: Node,
    value: Value,
) -> Option<StackifyError> {
    match target_node(function, block, value) {
        None => Some(StackifyError::MalformedFunction),
        Some(target) => if target.rank() < node.rank() {
            None
        } else {
            Some(StackifyError::CyclicDependencies)
        },
    }
}

/// The graph in which the read of `value` by `node` is recorded.
pub open spec fn with_dependency(
    graph: Graph,
    function: &Function,
    block: Block,
    node: Node,
    value: Value,
) -> Graph {
    let target = target_node(function, block, value)->0;
    graph.with_node(target).with_use(Link { dependent: node, dependency: target }, value)
}

/// The graph in which the reads by `node` of the values `uses[from..]` are
/// recorded, or the first reason for which one of them cannot be.
pub open spec fn after_uses(
    graph: Graph,
    function: &Function,
    block: Block,
    node: Node,
    uses: Seq<Value>,
    from: int,
) -> Result<Graph, StackifyError>
    decreases uses.len() - from,
{
    if from < 0 || from >= uses.len() {
        Ok(graph)
    } else {
        match dependency_error(function, block, node, uses[from]) {
            Some(e) => Err(e),
            None => after_uses(
                with_dependency(graph, function, block, node, uses[from]),
                function,
                block,
                node,
                uses,
                from + 1,
            ),
        }
    }
}

/// The node of the instruction at position `k` of `block`.
pub open spec fn inst_node(function: &Function, block: Block, k: int) -> Node {
    Node::Inst(function.blocks@[block as int].insts@[k], (k + 1) as u16)
}

/// The graph in which the instructions of `block` at positions `from` and
/// after are recorded with what they read, or the first reason for which a
/// read cannot be.
pub open spec fn after_insts(
    graph: Graph,
    function: &Function,
    block: Block,
    from: int,
) -> Result<Graph, StackifyError>
    decreases function.blocks@[block as int].insts@.len() - from,
{
    let insts = function.blocks@[block as int].insts@;
    if from < 0 || from >= insts.len() {
        Ok(graph)
    } else {
        let node = inst_node(function, block, from);
        match after_uses(
            graph.with_node(node),
            function,
            block,
            node,
            function.insts@[insts[from] as int].uses(),
            0,
        ) {
            Err(e) => Err(e),
            Ok(next) => after_insts(next, function, block, from + 1),
        }
    }
}

/// Whether a result of `inst` is live after it.
pub open spec fn has_live_results(
    function: &Function,
    liveness: &LivenessAnalysis,
    inst: Inst,
) -> bool {
    exists|r: int|
        0 <= r < function.insts@[inst as int].results@.len() && liveness.live_after(
            #[trigger] function.insts@[inst as int].results@[r],
            ProgramPoint::Inst(inst),
        )
}

/// Whether a result of `inst` is live after the last instruction of
/// `block`, which is to say outside the block.
pub open spec fn outlives_block(
    function: &Function,
    liveness: &LivenessAnalysis,
    block: Block,
    inst: Inst,
) -> bool {
    exists|r: int|
        0 <= r < function.insts@[inst as int].results@.len() && liveness.live_after(
            #[trigger] function.insts@[inst as int].results@[r],
            ProgramPoint::Inst(function.blocks@[block as int].insts@.last()),
        )
}

/// Whether the instruction `inst` of `block` is dead code once nothing in
/// the block reads it: it has no side effect and none of its results is live
/// after the block.
pub open spec fn disposable(
    function: &Function,
    liveness: &LivenessAnalysis,
    block: Block,
    inst: Inst,
) -> bool {
    !function.insts@[inst as int].ix.effectful() && !outlives_block(function, liveness, block, inst)
}

/// Whether nothing outside the block needs the results of `inst`, as far
/// as the clearing asks: none of them is live after the instruction, or none
/// is live after the block.
pub open spec fn unneeded(
    function: &Function,
    liveness: &LivenessAnalysis,
    block: Block,
    inst: Inst,
) -> bool {
    !has_live_results(function, liveness, inst) || !outlives_block(function, liveness, block, inst)
}

/// Whether the liveness analysis agrees with itself on the results of
/// `block`: one that is live after the block is live after the instruction
/// that defines it.
pub open spec fn lives_on(function: &Function, liveness: &LivenessAnalysis, block: Block) -> bool {
    forall|k: int|
        0 <= k < function.blocks@[block as int].insts@.len() && outlives_block(
            function,
            liveness,
            block,
            #[trigger] function.blocks@[block as int].insts@[k],
        ) ==> has_live_results(function, liveness, function.blocks@[block as int].insts@[k])
}

/// Whether `node` is an instruction that nothing in `graph` reads and none
/// of whose results is live after it.
pub open spec fn unread(
    graph: Graph,
    function: &Function,
    liveness: &LivenessAnalysis,
    node: Node,
) -> bool {
    node is Inst && graph.dependents(node).len() == 0 && !has_live_results(
        function,
        liveness,
        node->Inst_0,
    )
}

/// Whether `node` is an instruction that only one node of `graph` reads
/// and none of whose results is live after the block: nothing needs it any
/// more once that one node has left the graph.
pub open spec fn orphaned(
    graph: Graph,
    function: &Function,
    liveness: &LivenessAnalysis,
    block: Block,
    node: Node,
) -> bool {
    node is Inst && graph.dependents(node).len() == 1 && !outlives_block(
        function,
        liveness,
        block,
        node->Inst_0,
    )
}

/// Where the clearing of `graph` starts: of the nodes at `from` and after,
/// in their order, the instructions that nothing in the graph reads and none
/// of whose results is live after them.
pub open spec fn seeds_from(
    graph: Graph,
    function: &Function,
    liveness: &LivenessAnalysis,
    from: int,
) -> Seq<Node>
    decreases graph.nodes.len() - from,
{
    if from < 0 || from >= graph.nodes.len() {
        Seq::empty()
    } else if unread(graph, function, liveness, graph.nodes[from]) {
        seq![graph.nodes[from]] + seeds_from(graph, function, liveness, from + 1)
    } else {
        seeds_from(graph, function, liveness, from + 1)
    }
}

/// Of `dependencies[from..]`, in their order, the instructions that only
/// one node of `graph` reads and none of whose results is live after the
/// block.
pub open spec fn orphans_from(
    graph: Graph,
    function: &Function,
    liveness: &LivenessAnalysis,
    block: Block,
    dependencies: Seq<Node>,
    from: int,
) -> Seq<Node>
    decreases dependencies.len() - from,
{
    if from < 0 || from >= dependencies.len() {
        Seq::empty()
    } else if orphaned(graph, function, liveness, block, dependencies[from]) {
        seq![dependencies[from]] + orphans_from(
            graph,
            function,
            liveness,
            block,
            dependencies,
            from + 1,
        )
    } else {
        orphans_from(graph, function, liveness, block, dependencies, from + 1)
    }
}

/// Whether `node`, taken from the worklist, leaves `graph`: it is an
/// instruction of the graph without side effects.
pub open spec fn leaves(graph: Graph, function: &Function, node: Node) -> bool {
    node is Inst && graph.nodes.contains(node) && !function.insts@[node->Inst_0 as int].ix.effectful()
}

/// The graph of `block` once the worklist is drained: the node at its front
/// leaves the graph if it has no side effect, and what it alone read and
/// nobody needs after the block is put at the back of the worklist.
pub open spec fn drained(
    graph: Graph,
    function: &Function,
    liveness: &LivenessAnalysis,
    block: Block,
    worklist: Seq<Node>,
) -> Graph
    decreases graph.nodes.len(), worklist.len(),
{
    if worklist.len() == 0 {
        graph
    } else if leaves(graph, function, worklist[0]) {
        drained(
            graph.without(worklist[0]),
            function,
            liveness,
            block,
            worklist.skip(1) + orphans_from(
                graph,
                function,
                liveness,
                block,
                graph.dependencies(worklist[0]),
                0,
            ),
        )
    } else {
        drained(graph, function, liveness, block, worklist.skip(1))
    }
}

/// The dependency graph of `block`, or the reason for which there is none.
pub open spec fn block_graph(
    function: &Function,
    liveness: &LivenessAnalysis,
    block: Block,
) -> Result<Graph, StackifyError> {
    match after_insts(Graph::empty(), function, block, 0) {
        Err(e) => Err(e),
        Ok(full) => Ok(
            drained(full, function, liveness, block, seeds_from(full, function, liveness, 0)),
        ),
    }
}

/// Draining the worklist puts nothing into the graph, and leaves the graph
/// sound.
pub proof fn lemma_drained_removes(
    graph: Graph,
    function: &Function,
    liveness: &LivenessAnalysis,
    block: Block,
    worklist: Seq<Node>,
    node: Node,
)
    requires
        graph.wf(),
        !graph.nodes.contains(node),
    ensures
        !drained(graph, function, liveness, block, worklist).nodes.contains(node),
    decreases graph.nodes.len(), worklist.len(),
{
    if worklist.len() > 0 {
        if leaves(graph, function, worklist[0]) {
            lemma_without_wf(graph, worklist[0]);
            lemma_drained_removes(
                graph.without(worklist[0]),
                function,
                liveness,
                block,
                worklist.skip(1) + orphans_from(
                    graph,
                    function,
                    liveness,
                    block,
                    graph.dependencies(worklist[0]),
                    0,
                ),
                node,
            );
        } else {
            lemma_drained_removes(graph, function, liveness, block, worklist.skip(1), node);
        }
    }
}

/// An instruction without side effects that is on the worklist is not in
/// the graph once the worklist is drained.
pub proof fn lemma_worklist_leaves(
    graph: Graph,
    function: &Function,
    liveness: &LivenessAnalysis,
    block: Block,
    worklist: Seq<Node>,
    i: int,
)
    requires
        graph.wf(),
        0 <= i < worklist.len(),
        worklist[i] is Inst,
        !function.insts@[worklist[i]->Inst_0 as int].ix.effectful(),
    ensures
        !drained(graph, function, liveness, block, worklist).nodes.contains(worklist[i]),
    decreases graph.nodes.len(), worklist.len(),
{
    let first = worklist[0];
    if leaves(graph, function, first) {
        lemma_without_wf(graph, first);
        let next = worklist.skip(1) + orphans_from(
            graph,
            function,
            liveness,
            block,
            graph.dependencies(first),
            0,
        );
        if i == 0 {
            lemma_drained_removes(graph.without(first), function, liveness, block, next, first);
        } else {
            assert(next[i - 1] == worklist[i]);
            lemma_worklist_leaves(graph.without(first), function, liveness, block, next, i - 1);
        }
    } else if i == 0 {
        lemma_drained_removes(graph, function, liveness, block, worklist.skip(1), first);
    } else {
        lemma_worklist_leaves(graph, function, liveness, block, worklist.skip(1), i - 1);
    }
}

/// The orphans are instructions.
pub proof fn lemma_orphans(
    graph: Graph,
    function: &Function,
    liveness: &LivenessAnalysis,
    block: Block,
    dependencies: Seq<Node>,
    from: int,
    j: int,
)
    requires
        0 <= from,
        0 <= j < orphans_from(graph, function, liveness, block, dependencies, from).len(),
    ensures
        orphaned(
            graph,
            function,
            liveness,
            block,
            orphans_from(graph, function, liveness, block, dependencies, from)[j],
        ),
    decreases dependencies.len() - from,
{
    if from < dependencies.len() {
        if orphaned(graph, function, liveness, block, dependencies[from]) {
            if j > 0 {
                lemma_orphans(graph, function, liveness, block, dependencies, from + 1, j - 1);
            }
        } else {
            lemma_orphans(graph, function, liveness, block, dependencies, from + 1, j);
        }
    }
}

/// Dead code takes with it what it alone read: when the instruction at
/// the front of the worklist leaves the graph, an instruction without side
/// effects that only it read, and none of whose results is live after the
/// block, is not in the graph either once the worklist is drained.
pub proof fn lemma_orphans_leave(
    graph: Graph,
    function: &Function,
    liveness: &LivenessAnalysis,
    block: Block,
    worklist: Seq<Node>,
    j: int,
)
    requires
        graph.wf(),
        worklist.len() > 0,
        leaves(graph, function, worklist[0]),
        0 <= j < orphans_from(
            graph,
            function,
            liveness,
            block,
            graph.dependencies(worklist[0]),
            0,
        ).len(),
        !function.insts@[orphans_from(
            graph,
            function,
            liveness,
            block,
            graph.dependencies(worklist[0]),
            0,
        )[j]->Inst_0 as int].ix.effectful(),
    ensures
        !drained(graph, function, liveness, block, worklist).nodes.contains(
            orphans_from(graph, function, liveness, block, graph.dependencies(worklist[0]), 0)[j],
        ),
{
    let orphans = orphans_from(
        graph,
        function,
        liveness,
        block,
        graph.dependencies(worklist[0]),
        0,
    );
    let next = worklist.skip(1) + orphans;
    lemma_orphans(graph, function, liveness, block, graph.dependencies(worklist[0]), 0, j);
    lemma_without_wf(graph, worklist[0]);
    assert(next[worklist.len() - 1 + j] == orphans[j]);
    lemma_worklist_leaves(
        graph.without(worklist[0]),
        function,
        liveness,
        block,
        next,
        worklist.len() - 1 + j,
    );
}

/// The clearing starts with every instruction of the graph that nothing
/// reads and none of whose results is live after it.
pub proof fn lemma_seeds(
    graph: Graph,
    function: &Function,
    liveness: &LivenessAnalysis,
    from: int,
    at: int,
)
    requires
        0 <= from <= at < graph.nodes.len(),
        unread(graph, function, liveness, graph.nodes[at]),
    ensures
        seeds_from(graph, function, liveness, from).contains(graph.nodes[at]),
    decreases at - from,
{
    let seeds = seeds_from(graph, function, liveness, from);
    if from == at {
        assert(seeds[0] == graph.nodes[at]);
    } else {
        lemma_seeds(graph, function, liveness, from + 1, at);
        let rest = seeds_from(graph, function, liveness, from + 1);
        let i = rest.index_of(graph.nodes[at]);
        if unread(graph, function, liveness, graph.nodes[from]) {
            assert(seeds[i + 1] == graph.nodes[at]);
        } else {
            assert(seeds[i] == graph.nodes[at]);
        }
    }
}

/// Dead code leaves the graph: an instruction without side effects that
/// nothing in `graph` reads, and none of whose results is live after it, is
/// not in the graph once it is cleared.
pub proof fn lemma_dead_code_leaves(
    graph: Graph,
    function: &Function,
    liveness: &LivenessAnalysis,
    block: Block,
    node: Node,
)
    requires
        graph.wf(),
        unread(graph, function, liveness, node),
        !function.insts@[node->Inst_0 as int].ix.effectful(),
    ensures
        !drained(
            graph,
            function,
            liveness,
            block,
            seeds_from(graph, function, liveness, 0),
        ).nodes.contains(node),
{
    let seeds = seeds_from(graph, function, liveness, 0);
    if graph.nodes.contains(node) {
        let at = graph.nodes.index_of(node);
        lemma_seeds(graph, function, liveness, 0, at);
        let i = seeds.index_of(node);
        lemma_worklist_leaves(graph, function, liveness, block, seeds, i);
    } else {
        lemma_drained_removes(graph, function, liveness, block, seeds, node);
    }
}

/// An instruction among the nodes of a block is one of the function.
pub proof fn lemma_block_node(function: &Function, block: Block, node: Node)
    requires
        function.wf(),
        (block as int) < function.blocks@.len(),
        block_node(function, block, node),
        node is Inst,
    ensures
        (node->Inst_0 as int) < function.insts@.len(),
        node->Inst_0 == function.blocks@[block as int].insts@[node.rank() - 1],
{
    assert(function.block_wf(block as int));
}

/// In a graph of nodes of a block that holds the node of the last
/// instruction of the block, that node is a root, and the schedule ends with
/// it.
pub proof fn lemma_last_inst_last(function: &Function, block: Block, graph: Graph)
    requires
        function.blocks@[block as int].insts@.len() > 0,
        function.blocks@[block as int].insts@.len() <= crate::hir::MAX_BLOCK_INSTS,
        graph.wf(),
        forall|node: Node| #[trigger] graph.nodes.contains(node) ==> block_node(function, block, node),
        graph.nodes.contains(
            inst_node(function, block, function.blocks@[block as int].insts@.len() - 1),
        ),
    ensures
        schedule_of(graph).len() > 0,
        schedule_of(graph).last() == inst_node(
            function,
            block,
            function.blocks@[block as int].insts@.len() - 1,
        ),
{
    let n = function.blocks@[block as int].insts@.len();
    let last = inst_node(function, block, n - 1);
    let schedule = schedule_of(graph);
    lemma_schedule(graph);
    assert(is_root(graph, last)) by {
        if graph.dependents(last).len() > 0 {
            lemma_dependents_rank(graph, last, 0, 0);
            assert(block_node(function, block, graph.dependents(last)[0]));
        }
    }
    assert(schedule.contains(last));
    let i = schedule.index_of(last);
    assert(schedule[i] == last);
    let end = schedule.last();
    assert(schedule.contains(end)) by {
        assert(schedule[schedule.len() - 1] == end);
    }
    assert(graph.nodes.contains(end));
    assert(block_node(function, block, end));
    if i < schedule.len() - 1 {
        assert(schedule[i].rank() <= schedule[schedule.len() - 1].rank());
    }
}

/// The position of `inst` in `insts`, if it is there.
fn position_of_inst(insts: &Vec<Inst>, inst: Inst) -> (found: Option<usize>)
    ensures
        match found {
            Some(at) => at < insts@.len() && first_position(insts@, inst, 0) == at && insts@[at as int]
                == inst,
            None => first_position(insts@, inst, 0) >= insts@.len(),
        },
{
    let mut at: usize = 0;
    while at < insts.len()
        invariant
            at <= insts@.len(),
            first_position(insts@, inst, 0) == first_position(insts@, inst, at as int),
        decreases insts@.len() - at,
    {
        if insts[at] == inst {
            return Some(at);
        }
        at = at + 1;
    }
    None
}

/// Whether `node` can be a node of the dependency graph of `block`: a
/// stack value, or an instruction of the block with its position.
pub open spec fn block_node(function: &Function, block: Block, node: Node) -> bool {
    node is Stack || (1 <= node.rank() <= function.blocks@[block as int].insts@.len() && node
        == inst_node(function, block, node.rank() - 1))
}

/// The node that stands for `value` in the dependency graph of `block`.
fn find_target(function: &Function, block: Block, value: Value) -> (target: Option<Node>)
    requires
        function.wf(),
        (block as int) < function.blocks@.len(),
        (value as int) < function.values@.len(),
    ensures
        target == target_node(function, block, value),
        target matches Some(node) ==> block_node(function, block, node),
{
    match function.value_data(value) {
        ValueData::Param { .. } => Some(Node::Stack(value)),
        ValueData::Inst { inst, .. } => {
            assert(function.value_wf(value as int));
            if function.inst(inst).block == block {
                assert(function.block_wf(block as int));
                match position_of_inst(function.block_insts(block), inst) {
                    Some(at) => Some(Node::Inst(inst, (at + 1) as u16)),
                    None => None,
                }
            } else {
                Some(Node::Stack(value))
            }
        },
    }
}

/// Records in `graph` that `node`, which stands at the program point `pp`,
/// reads `value`: the node that stands for the value is put in the graph if
/// need be, and the edge to it gets one more use of the value. Fails, with
/// the graph unchanged, if the function is inconsistent about where the value
/// is defined, or if the value is defined in the block at or after `node`.
pub fn add_data_dependency(
    node: Node,
    value: Value,
    pp: ProgramPoint,
    function: &Function,
    graph: &mut DependencyGraph,
) -> (result: Result<(), StackifyError>)
    requires
        function.wf(),
        pp_known(function, pp),
        (value as int) < function.values@.len(),
        old(graph)@.wf(),
        old(graph)@.nodes.contains(node),
    ensures
        final(graph)@.wf(),
        match dependency_error(function, pp_block(function, pp), node, value) {
            Some(e) => result == Err::<(), StackifyError>(e) && final(graph)@ == old(graph)@,
            None => result is Ok && final(graph)@ == with_dependency(
                old(graph)@,
                function,
                pp_block(function, pp),
                node,
                value,
            ),
        },
        forall|other: Node| old(graph)@.nodes.contains(other) ==> final(graph)@.nodes.contains(other),
        forall|other: Node|
            final(graph)@.nodes.contains(other) ==> old(graph)@.nodes.contains(other) || block_node(
                function,
                pp_block(function, pp),
                other,
            ),
{
    let block = match pp {
        ProgramPoint::Block(block) => block,
        ProgramPoint::Inst(inst) => {
            assert(function.inst_wf(inst as int));
            function.inst(inst).block
        },
    };
    let target = match find_target(function, block, value) {
        Some(target) => target,
        None => {
            return Err(StackifyError::MalformedFunction);
        },
    };
    if target.index() >= node.index() {
        return Err(StackifyError::CyclicDependencies);
    }
    graph.add_node(target);
    let result = graph.add_dependency(Link { dependent: node, dependency: target }, value);
    result
}

/// Whether a result of `inst` is live after it.
fn any_result_live(function: &Function, liveness: &LivenessAnalysis, inst: Inst) -> (live: bool)
    requires
        (inst as int) < function.insts@.len(),
    ensures
        live == has_live_results(function, liveness, inst),
{
    let results = function.inst_results(inst);
    let mut r: usize = 0;
    while r < results.len()
        invariant
            r <= results@.len(),
            results@ == function.insts@[inst as int].results@,
            forall|j: int|
                0 <= j < r ==> !liveness.live_after(#[trigger] results@[j], ProgramPoint::Inst(inst)),
        decreases results@.len() - r,
    {
        if liveness.is_live_after(results[r], ProgramPoint::Inst(inst)) {
            return true;
        }
        r = r + 1;
    }
    false
}

/// Whether a result of `inst` is live after the last instruction of
/// `block`.
fn any_result_outlives(
    function: &Function,
    liveness: &LivenessAnalysis,
    block: Block,
    inst: Inst,
) -> (live: bool)
    requires
        function.wf(),
        (block as int) < function.blocks@.len(),
        (inst as int) < function.insts@.len(),
    ensures
        live == outlives_block(function, liveness, block, inst),
{
    assert(function.block_wf(block as int));
    let insts = function.block_insts(block);
    let last = insts[insts.len() - 1];
    let results = function.inst_results(inst);
    let mut r: usize = 0;
    while r < results.len()
        invariant
            r <= results@.len(),
            results@ == function.insts@[inst as int].results@,
            last == function.blocks@[block as int].insts@.last(),
            forall|j: int|
                0 <= j < r ==> !liveness.live_after(#[trigger] results@[j], ProgramPoint::Inst(last)),
        decreases results@.len() - r,
    {
        if liveness.is_live_after(results[r], ProgramPoint::Inst(last)) {
            return true;
        }
        r = r + 1;
    }
    false
}

/// The worklist that the clearing of `graph` starts with.
fn seeds(
    graph: &DependencyGraph,
    block: Block,
    function: &Function,
    liveness: &LivenessAnalysis,
) -> (worklist: VecDeque<Node>)
    requires
        function.wf(),
        (block as int) < function.blocks@.len(),
        graph@.wf(),
        forall|node: Node| #[trigger] graph@.nodes.contains(node) ==> block_node(function, block, node),
    ensures
        worklist@ == seeds_from(graph@, function, liveness, 0),
        forall|w: int|
            0 <= w < worklist@.len() ==> (#[trigger] worklist@[w]) is Inst && block_node(
                function,
                block,
                worklist@[w],
            ) && unneeded(function, liveness, block, worklist@[w]->Inst_0),
{
    let mut worklist: VecDeque<Node> = VecDeque::new();
    let nodes = graph.nodes();
    let mut i: usize = 0;
    assert(worklist@ + seeds_from(graph@, function, liveness, 0) =~= seeds_from(
        graph@,
        function,
        liveness,
        0,
    ));
    while i < nodes.len()
        invariant
            i <= nodes@.len(),
            nodes@ == graph@.nodes,
            function.wf(),
            (block as int) < function.blocks@.len(),
            forall|node: Node| #[trigger]
                graph@.nodes.contains(node) ==> block_node(function, block, node),
            worklist@ + seeds_from(graph@, function, liveness, i as int) == seeds_from(
                graph@,
                function,
                liveness,
                0,
            ),
            forall|w: int|
                0 <= w < worklist@.len() ==> (#[trigger] worklist@[w]) is Inst && block_node(
                    function,
                    block,
                    worklist@[w],
                ) && unneeded(function, liveness, block, worklist@[w]->Inst_0),
        decreases nodes@.len() - i,
    {
        let node = nodes[i];
        let ghost before = worklist@;
        assert(graph@.nodes.contains(node));
        match node {
            Node::Inst(inst, _) => {
                proof {
                    lemma_block_node(function, block, node);
                }
                if graph.num_predecessors(&node) == 0 && !any_result_live(function, liveness, inst) {
                    worklist.push_back(node);
                    assert(worklist@ + seeds_from(graph@, function, liveness, i + 1) =~= before
                        + seeds_from(graph@, function, liveness, i as int));
                }
            },
            Node::Stack(_) => {},
        }
        i = i + 1;
    }
    assert(worklist@ + Seq::<Node>::empty() =~= worklist@);
    worklist
}

/// Puts at the back of the worklist what `node` alone reads in `graph` and
/// nobody needs after the block.
fn enqueue_orphans(
    graph: &DependencyGraph,
    node: &Node,
    block: Block,
    function: &Function,
    liveness: &LivenessAnalysis,
    worklist: &mut VecDeque<Node>,
)
    requires
        function.wf(),
        (block as int) < function.blocks@.len(),
        graph@.wf(),
        forall|other: Node| #[trigger]
            graph@.nodes.contains(other) ==> block_node(function, block, other),
        forall|w: int|
            0 <= w < old(worklist)@.len() ==> (#[trigger] old(worklist)@[w]) is Inst && block_node(
                function,
                block,
                old(worklist)@[w],
            ) && unneeded(function, liveness, block, old(worklist)@[w]->Inst_0),
    ensures
        final(worklist)@ == old(worklist)@ + orphans_from(
            graph@,
            function,
            liveness,
            block,
            graph@.dependencies(*node),
            0,
        ),
        forall|w: int|
            0 <= w < final(worklist)@.len() ==> (#[trigger] final(worklist)@[w]) is Inst
                && block_node(function, block, final(worklist)@[w]) && unneeded(function, liveness, block, final(worklist)@[w]->Inst_0),
{
    let dependencies = graph.successors(node);
    let ghost all = orphans_from(graph@, function, liveness, block, dependencies@, 0);
    let ghost mut done: Seq<Node> = Seq::empty();
    let mut d: usize = 0;
    assert(old(worklist)@ + done =~= old(worklist)@);
    assert(done + all =~= all);
    while d < dependencies.len()
        invariant
            d <= dependencies@.len(),
            dependencies@ == graph@.dependencies(*node),
            function.wf(),
            (block as int) < function.blocks@.len(),
            graph@.wf(),
            forall|other: Node| #[trigger]
                graph@.nodes.contains(other) ==> block_node(function, block, other),
            worklist@ == old(worklist)@ + done,
            done + orphans_from(graph@, function, liveness, block, dependencies@, d as int) == all,
            forall|w: int|
                0 <= w < worklist@.len() ==> (#[trigger] worklist@[w]) is Inst && block_node(
                    function,
                    block,
                    worklist@[w],
                ) && unneeded(function, liveness, block, worklist@[w]->Inst_0),
        decreases dependencies@.len() - d,
    {
        let dependency = dependencies[d];
        let ghost before = worklist@;
        proof {
            lemma_dependencies_rank(graph@, *node, 0, d as int);
        }
        match dependency {
            Node::Inst(inst, _) => {
                proof {
                    lemma_block_node(function, block, dependency);
                }
                if graph.num_predecessors(&dependency) == 1 && !any_result_outlives(
                    function,
                    liveness,
                    block,
                    inst,
                ) {
                    worklist.push_back(dependency);
                    proof {
                        assert((done.push(dependency)) + orphans_from(
                            graph@,
                            function,
                            liveness,
                            block,
                            dependencies@,
                            d + 1,
                        ) =~= done + orphans_from(
                            graph@,
                            function,
                            liveness,
                            block,
                            dependencies@,
                            d as int,
                        ));
                        assert(worklist@ =~= old(worklist)@ + done.push(dependency));
                        done = done.push(dependency);
                    }
                }
            },
            Node::Stack(_) => {},
        }
        d = d + 1;
    }
    assert(done + Seq::<Node>::empty() =~= done);
}

/// Builds the dependency graph of the block `block_id`: a node for each of its
/// instructions, in program order, and for each value that one of them reads an
/// edge to the instruction of the block that defines it, or to the value as
/// found on the operand stack. Then the graph is cleared of dead code from a
/// worklist, which starts with the instructions that nothing reads and none
/// of whose results is live after them: an instruction without side effects
/// that is taken from the worklist leaves the graph, and what it alone read
/// and nobody needs after the block is put on the worklist in turn. So an
/// instruction that has left the graph has no side effect, and where the
/// liveness analysis agrees with itself none of its results is live after
/// the block; and an instruction without side effects that nothing in the
/// block reads and none of whose results is live after it has left. Fails
/// if a value is read in the block before the block defines it.
pub fn build_dependency_graph(
    block_id: Block,
    function: &Function,
    liveness: &LivenessAnalysis,
) -> (result: Result<DependencyGraph, StackifyError>)
    requires
        function.wf(),
        (block_id as int) < function.blocks@.len(),
    ensures
        match block_graph(function, liveness, block_id) {
            Ok(graph) => result is Ok && result->Ok_0@ == graph,
            Err(e) => result == Err::<DependencyGraph, StackifyError>(e),
        },
        result matches Ok(graph) ==> {
            &&& graph@.wf()
            &&& forall|k: int|
                0 <= k < function.blocks@[block_id as int].insts@.len() && !graph@.nodes.contains(
                    #[trigger] inst_node(function, block_id, k),
                ) ==> !function.insts@[function.blocks@[block_id as int].insts@[k] as int].ix.effectful()
                    && unneeded(
                    function,
                    liveness,
                    block_id,
                    function.blocks@[block_id as int].insts@[k],
                )
            &&& forall|k: int|
                0 <= k < function.blocks@[block_id as int].insts@.len() && unread(
                    after_insts(Graph::empty(), function, block_id, 0)->Ok_0,
                    function,
                    liveness,
                    #[trigger] inst_node(function, block_id, k),
                ) && !function.insts@[function.blocks@[block_id as int].insts@[k] as int].ix.effectful()
                    ==> !graph@.nodes.contains(inst_node(function, block_id, k))
            &&& lives_on(function, liveness, block_id) ==> forall|k: int|
                0 <= k < function.blocks@[block_id as int].insts@.len() && !graph@.nodes.contains(
                    #[trigger] inst_node(function, block_id, k),
                ) ==> disposable(
                    function,
                    liveness,
                    block_id,
                    function.blocks@[block_id as int].insts@[k],
                )
            &&& forall|node: Node| #[trigger]
                graph@.nodes.contains(node) ==> block_node(function, block_id, node)
            &&& function.insts@[function.blocks@[block_id as int].insts@.last() as int].ix.effectful()
                ==> schedule_of(graph@).len() > 0 && schedule_of(graph@).last() == inst_node(
                function,
                block_id,
                function.blocks@[block_id as int].insts@.len() - 1,
            )
        },
{
    let mut graph = DependencyGraph::new();
    let insts = function.block_insts(block_id);
    let n = insts.len();
    assert(function.block_wf(block_id as int));
    let mut k: usize = 0;
    while k < n
        invariant
            function.wf(),
            (block_id as int) < function.blocks@.len(),
            insts@ == function.blocks@[block_id as int].insts@,
            n == insts@.len(),
            n <= crate::hir::MAX_BLOCK_INSTS,
            k <= n,
            graph@.wf(),
            after_insts(graph@, function, block_id, k as int) == after_insts(
                Graph::empty(),
                function,
                block_id,
                0,
            ),
            forall|j: int| 0 <= j < k ==> graph@.nodes.contains(#[trigger] inst_node(function, block_id, j)),
            forall|node: Node| #[trigger]
                graph@.nodes.contains(node) ==> block_node(function, block_id, node),
        decreases n - k,
    {
        let inst = insts[k];
        assert(function.block_wf(block_id as int));
        assert((insts@[k as int] as int) < function.insts@.len());
        assert(function.inst_wf(inst as int));
        let node = Node::Inst(inst, (k + 1) as u16);
        assert(node == inst_node(function, block_id, k as int));
        let ghost at_k = graph@;
        graph.add_node(node);
        let pp = ProgramPoint::Inst(inst);
        let uses = function.inst(inst).used_values();
        let ghost entered = graph@;
        let mut u: usize = 0;
        while u < uses.len()
            invariant
                function.wf(),
                (block_id as int) < function.blocks@.len(),
                insts@ == function.blocks@[block_id as int].insts@,
                k < insts@.len(),
                inst == insts@[k as int],
                node == inst_node(function, block_id, k as int),
                entered == at_k.with_node(node),
                after_insts(at_k, function, block_id, k as int) == after_insts(
                    Graph::empty(),
                    function,
                    block_id,
                    0,
                ),
                pp == ProgramPoint::Inst(inst),
                (inst as int) < function.insts@.len(),
                function.insts@[inst as int].block == block_id,
                uses@ == function.insts@[inst as int].uses(),
                function.values_known(uses@),
                u <= uses@.len(),
                graph@.wf(),
                graph@.nodes.contains(node),
                after_uses(graph@, function, block_id, node, uses@, u as int) == after_uses(
                    entered,
                    function,
                    block_id,
                    node,
                    uses@,
                    0,
                ),
                forall|other: Node| entered.nodes.contains(other) ==> graph@.nodes.contains(other),
                forall|other: Node| #[trigger]
                    graph@.nodes.contains(other) ==> block_node(function, block_id, other),
            decreases uses@.len() - u,
        {
            match add_data_dependency(node, uses[u], pp, function, &mut graph) {
                Ok(_) => {},
                Err(e) => {
                    return Err(e);
                },
            }
            u = u + 1;
        }
        assert forall|j: int| 0 <= j < k + 1 implies graph@.nodes.contains(
            #[trigger] inst_node(function, block_id, j),
        ) by {
            assert(entered.nodes.contains(inst_node(function, block_id, j)));
        }
        k = k + 1;
    }
    let ghost full = graph@;
    proof {
        assert forall|k: int|
            0 <= k < n && unread(
                full,
                function,
                liveness,
                #[trigger] inst_node(function, block_id, k),
            ) && !function.insts@[insts@[k] as int].ix.effectful() implies !drained(
            full,
            function,
            liveness,
            block_id,
            seeds_from(full, function, liveness, 0),
        ).nodes.contains(inst_node(function, block_id, k)) by {
            lemma_dead_code_leaves(
                full,
                function,
                liveness,
                block_id,
                inst_node(function, block_id, k),
            );
        }
    }
    let mut worklist = seeds(&graph, block_id, function, liveness);
    loop
        invariant
            function.wf(),
            (block_id as int) < function.blocks@.len(),
            insts@ == function.blocks@[block_id as int].insts@,
            n == insts@.len(),
            graph@.wf(),
            drained(graph@, function, liveness, block_id, worklist@) == drained(
                full,
                function,
                liveness,
                block_id,
                seeds_from(full, function, liveness, 0),
            ),
            forall|w: int|
                0 <= w < worklist@.len() ==> (#[trigger] worklist@[w]) is Inst && block_node(
                    function,
                    block_id,
                    worklist@[w],
                ) && unneeded(function, liveness, block_id, worklist@[w]->Inst_0),
            forall|j: int|
                0 <= j < n && !graph@.nodes.contains(#[trigger] inst_node(function, block_id, j))
                    ==> !function.insts@[insts@[j] as int].ix.effectful() && unneeded(
                    function,
                    liveness,
                    block_id,
                    insts@[j],
                ),
            forall|node: Node| #[trigger]
                graph@.nodes.contains(node) ==> block_node(function, block_id, node),
        ensures
            worklist@.len() == 0,
        decreases graph@.nodes.len(), worklist@.len(),
    {
        let ghost before = graph@;
        let ghost queued = worklist@;
        let node = match worklist.pop_front() {
            Some(node) => node,
            None => {
                break ;
            },
        };
        assert(worklist@ =~= queued.skip(1));
        assert(queued[0] == node);
        let inst = match node {
            Node::Inst(inst, _) => inst,
            Node::Stack(_) => 0,
        };
        proof {
            lemma_block_node(function, block_id, node);
        }
        if graph.contains(&node) && !function.inst(inst).ix.has_side_effects() {
            assert(leaves(before, function, node));
            enqueue_orphans(&graph, &node, block_id, function, liveness, &mut worklist);
            graph.remove_node(&node);
            assert(graph@.nodes.len() < before.nodes.len()) by {
                let at = before.nodes.index_of(node);
                assert(graph@.nodes == before.nodes.remove(at));
            }
            assert forall|j: int|
                0 <= j < n && !graph@.nodes.contains(
                    #[trigger] inst_node(function, block_id, j),
                ) implies !function.insts@[insts@[j] as int].ix.effectful() && unneeded(
                    function,
                    liveness,
                    block_id,
                    insts@[j],
                ) by {
                if inst_node(function, block_id, j) == node {
                    assert(insts@[j] == inst);
                }
            }
        } else {
            assert(!leaves(before, function, node));
        }
    }
    proof {
        let last = insts@.last();
        if function.insts@[last as int].ix.effectful() {
            assert(function.insts@[insts@[n - 1] as int].ix.effectful());
            assert(graph@.nodes.contains(inst_node(function, block_id, n - 1)));
            lemma_last_inst_last(function, block_id, graph@);
        }
    }
    Ok(graph)
}

} // verus!
