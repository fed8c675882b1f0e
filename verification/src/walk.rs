//! What the pass computes, as a mathematical function: the walk over the
//! control flow graph that lowers block after block, told step by step over
//! sequences of operations and of stack entries.
//!
//! Where one part of the walk follows another, it does so only if the first
//! has left no more blocks to reach than there were. This always holds, and
//! is what shows that the walk ends: a block that is no loop header is
//! entered once, and a loop header that is entered again is not left for
//! another block.

use vstd::prelude::*;
use crate::analysis::{LivenessAnalysis, LoopAnalysis};
use crate::arguments::{lemma_prepare_arranges, prepare_error, prepare_ops};
use crate::clearing::{drop_plan, drops_in_reach, fuse_drops, retain_from};
use crate::dependencies::block_graph;
use crate::depgraph::{Graph, Link, Node, Use};
use crate::error::StackifyError;
use crate::globals::global_address;
use crate::hir::{
    Block, Function, GlobalValueData, Inst, Instruction, Program, ProgramPoint, Value,
};
use crate::lowering::{
    exit_entries, loopback_ops, op_lowering, operands_on_top, push_op_of, pushed_entries,
    repeat_error, repeat_ops,
    result_entries, return_failure, return_imm_ops, return_ops,
};
use crate::masm::{BlockId, Felt, Op, MAX_OPERAND_INDEX};
use crate::operand_stack::{
    apply_all, dup_at, first_named, lemma_apply_one, lemma_apply_two, lemma_first_named, movdn_at,
    operands_of, position_of, swap_at, Entry, Operand,
};
use crate::oracle::{fetch_error, fetch_ops, last_use, may_consume};
use crate::primitives::{copy_ops, drop_ops};
use crate::window::arranged;
use crate::treegraph::{
    is_root, lemma_schedule, lemma_schedule_respects_dependencies, root_of, schedule_of,
};

verus! {

/// What a walk is given: the program, the function to lower, and the
/// analyses of the function.
pub struct Setting {
    pub program: Program,
    pub function: Function,
    pub loops: LoopAnalysis,
    pub liveness: LivenessAnalysis,
}

/// How far a walk has come.
pub struct Walk {
    /// The operations written to each block of the new function.
    pub blocks: Seq<Seq<Op>>,
    /// The blocks of the function that have been reached.
    pub visited: Set<Block>,
    /// For each loop header that has been reached, the operands that it was
    /// first entered with.
    pub entered: Map<Block, Seq<Operand>>,
    /// How many blocks of the function have not been reached.
    pub remaining: nat,
}

/// Where a walk stands.
pub struct Place {
    /// The block that is lowered.
    pub emitting: Block,
    /// The block whose jump back to a loop header is lowered, if any.
    pub controlling: Option<Block>,
    /// The block that is written.
    pub current: BlockId,
}

/// A walk together with the state of the operand stack.
pub type Step = Result<(Walk, Seq<Entry>), StackifyError>;

impl Walk {
    /// The walk before anything is reached: one empty block is there to
    /// write to.
    pub open spec fn start(function: &Function) -> Walk {
        Walk {
            blocks: seq![Seq::<Op>::empty()],
            visited: Set::empty(),
            entered: Map::empty(),
            remaining: function.blocks@.len(),
        }
    }

    /// The walk with `ops` written behind the block `at`.
    pub open spec fn write(self, at: BlockId, ops: Seq<Op>) -> Walk {
        Walk { blocks: self.blocks.update(at as int, self.blocks[at as int] + ops), ..self }
    }

    /// The walk with one more block, which is empty.
    pub open spec fn create(self) -> Walk {
        Walk { blocks: self.blocks.push(Seq::empty()), ..self }
    }

    /// The measure of what is left to do within a block.
    pub open spec fn level(self, first: bool) -> int {
        2 * (self.remaining as int) + (if first {
            1int
        } else {
            0int
        })
    }

    /// The measure of what is left to do when `block` is entered.
    pub open spec fn emit_level(self, block: Block) -> int {
        if self.visited.contains(block) || self.remaining == 0 {
            2 * (self.remaining as int)
        } else {
            2 * (self.remaining as int) - 1
        }
    }
}

/// How far a step has come, without the stack that it ends with.
pub open spec fn reached(step: Step) -> Result<Walk, StackifyError> {
    match step {
        Ok((walk, _)) => Ok(walk),
        Err(e) => Err(e),
    }
}

/// Writing twice behind a block is writing both at once.
pub proof fn lemma_write_twice(walk: Walk, at: BlockId, first: Seq<Op>, second: Seq<Op>)
    requires
        (at as int) < walk.blocks.len(),
    ensures
        walk.write(at, first).write(at, second) == walk.write(at, first + second),
        walk.write(at, Seq::empty()) == walk,
{
    assert(walk.write(at, first).write(at, second).blocks =~= walk.write(at, first + second).blocks)
        by {
        assert((walk.blocks[at as int] + first) + second =~= walk.blocks[at as int] + (first
            + second));
    }
    assert(walk.write(at, Seq::empty()).blocks =~= walk.blocks) by {
        assert(walk.blocks[at as int] + Seq::<Op>::empty() =~= walk.blocks[at as int]);
    }
}

/// Whether `value` is live after the last instruction of `block`.
pub open spec fn live_after_block(setting: Setting, block: Block, value: Value) -> bool {
    let insts = setting.function.blocks@[block as int].insts@;
    insts.len() > 0 && setting.liveness.live_after(value, ProgramPoint::Inst(insts.last()))
}

/// Whether the instruction that `dependent` stands for takes its two
/// operands in either order.
pub open spec fn order_is_free(setting: Setting, dependent: Node) -> bool {
    match dependent {
        Node::Inst(inst, _) => (inst as int) < setting.function.insts@.len()
            && setting.function.insts@[inst as int].ix.binary()
            && setting.function.insts@[inst as int].ix.commutes(),
        Node::Stack(_) => false,
    }
}

/// The nesting depth that returns and jumps back count from.
pub open spec fn controlling_level(setting: Setting, place: Place) -> nat {
    match place.controlling {
        Some(block) => setting.loops.level_of(block),
        None => setting.loops.level_of(place.emitting),
    }
}

/// The fetch of `value` to position `m`, written to the block `at`.
pub open spec fn fetch_step(
    walk: Walk,
    at: BlockId,
    value: Value,
    m: int,
    consume: bool,
    flexible: bool,
    stack: Seq<Entry>,
) -> Step {
    match fetch_error(stack, value, m, consume) {
        Some(e) => Err(e),
        None => {
            let ops = fetch_ops(stack, value, m, consume, flexible);
            Ok((walk.write(at, ops), apply_all(ops, stack)))
        },
    }
}

/// The lowering of a stack value that heads a tree: it is discarded if
/// nothing reads it and it is not live after the block.
pub open spec fn stack_root_step(
    setting: Setting,
    walk: Walk,
    place: Place,
    graph: Graph,
    node: Node,
    value: Value,
    stack: Seq<Entry>,
) -> Step {
    match position_of(stack, value) {
        None => Err(StackifyError::ValueNotFound(value)),
        Some(pos) => if graph.dependents(node).len() == 0 && !live_after_block(
            setting,
            place.emitting,
            value,
        ) {
            if pos > MAX_OPERAND_INDEX {
                Err(StackifyError::LimitExceeded)
            } else {
                Ok((walk.write(place.current, drop_ops(pos)), stack.remove(pos)))
            }
        } else {
            Ok((walk, stack))
        },
    }
}

/// The lowering of the read of a stack value by `dependent`.
pub open spec fn stack_dependency_step(
    setting: Setting,
    walk: Walk,
    place: Place,
    graph: Graph,
    schedule: Seq<Node>,
    node: Node,
    value: Value,
    dependent: Node,
    stack_index: int,
    stack: Seq<Entry>,
) -> Step {
    let consume = may_consume(
        graph,
        schedule,
        node,
        node,
        dependent,
        graph.dependents(node).len(),
        live_after_block(setting, place.emitting, value),
    );
    fetch_step(
        walk,
        place.current,
        value,
        stack_index,
        consume,
        order_is_free(setting, dependent),
        stack,
    )
}

/// A value that is still needed is copied, never moved. Where a value that
/// is read from the stack is live after the block, or is read by more
/// than one node and this read is not the last in the block, the read
/// writes a copy of the value and nothing else: the first operation is the
/// copy from where the value lies, the stack is deeper by one, and without
/// the copy it is as it was.
pub proof fn lemma_needed_value_is_copied(
    setting: Setting,
    walk: Walk,
    place: Place,
    graph: Graph,
    schedule: Seq<Node>,
    node: Node,
    value: Value,
    dependent: Node,
    stack_index: int,
    stack: Seq<Entry>,
)
    requires
        live_after_block(setting, place.emitting, value) || (graph.dependents(node).len() > 1
            && !last_use(graph, schedule, node, node, dependent)),
        (place.current as int) < walk.blocks.len(),
        0 <= stack_index,
        stack_dependency_step(
            setting,
            walk,
            place,
            graph,
            schedule,
            node,
            value,
            dependent,
            stack_index,
            stack,
        ) is Ok,
    ensures
        ({
            let (next, end) = stack_dependency_step(
                setting,
                walk,
                place,
                graph,
                schedule,
                node,
                value,
                dependent,
                stack_index,
                stack,
            )->Ok_0;
            let pos = first_named(stack, value, 0);
            let ops = copy_ops(pos, stack_index, order_is_free(setting, dependent));
            let copy = if stack_index == 0 || (stack_index == 1 && order_is_free(setting, dependent)) {
                0
            } else {
                stack_index
            };
            &&& 0 <= pos < stack.len()
            &&& stack[pos].names(value)
            &&& next.blocks[place.current as int] == walk.blocks[place.current as int] + ops
            &&& ops[0] == Op::Dup(pos as u8)
            &&& end.len() == stack.len() + 1
            &&& end[copy] == stack[pos]
            &&& end.remove(copy) == stack
        }),
{
    let flexible = order_is_free(setting, dependent);
    let pos = first_named(stack, value, 0);
    let ops = copy_ops(pos, stack_index, flexible);
    lemma_first_named(stack, value, 0);
    let consume = may_consume(
        graph,
        schedule,
        node,
        node,
        dependent,
        graph.dependents(node).len(),
        live_after_block(setting, place.emitting, value),
    );
    assert(!consume);
    assert(fetch_error(stack, value, stack_index, consume) is None);
    assert(0 <= pos < stack.len() && stack_index <= stack.len() && stack_index <= MAX_OPERAND_INDEX);
    let copied = dup_at(stack, pos);
    assert(copied.len() == stack.len() + 1);
    if stack_index == 0 || (stack_index == 1 && flexible) {
        lemma_apply_one(Op::Dup(pos as u8), stack);
        assert(copied.remove(0) =~= stack);
    } else if stack_index == 1 {
        lemma_apply_two(Op::Dup(pos as u8), Op::Swap(1), stack);
        assert(swap_at(copied, 1).remove(1) =~= stack);
    } else {
        lemma_apply_two(
            Op::Dup(pos as u8),
            Op::Movdn(stack_index as u8),
            stack,
        );
        assert(movdn_at(copied, stack_index).remove(stack_index) =~= stack);
    }
}

/// The fetches of the values `used[..k]`, last first, for a dependent that
/// reads more than one result of an instruction.
pub open spec fn fetch_used_step(
    setting: Setting,
    walk: Walk,
    place: Place,
    graph: Graph,
    schedule: Seq<Node>,
    node: Node,
    inst: Inst,
    dependent: Node,
    dependents: nat,
    stack_index: int,
    used: Seq<Use>,
    k: int,
    stack: Seq<Entry>,
) -> Step
    decreases k,
{
    if k <= 0 || k > used.len() {
        Ok((walk, stack))
    } else {
        let operand = used[k - 1].value;
        if !setting.function.insts@[inst as int].results@.contains(operand) {
            Err(StackifyError::MalformedFunction)
        } else {
            let consume = may_consume(
                graph,
                schedule,
                node,
                root_of(graph, node),
                dependent,
                dependents,
                live_after_block(setting, place.emitting, operand),
            );
            match fetch_step(
                walk,
                place.current,
                operand,
                stack_index,
                consume,
                order_is_free(setting, dependent),
                stack,
            ) {
                Err(e) => Err(e),
                Ok((next, rest)) => fetch_used_step(
                    setting,
                    next,
                    place,
                    graph,
                    schedule,
                    node,
                    inst,
                    dependent,
                    dependents,
                    stack_index,
                    used,
                    k - 1,
                    rest,
                ),
            }
        }
    }
}

/// The fetch of the results of the instruction `inst`, which has been
/// lowered, for `dependent`, which belongs to another tree.
pub open spec fn fetch_results_step(
    setting: Setting,
    walk: Walk,
    place: Place,
    graph: Graph,
    schedule: Seq<Node>,
    node: Node,
    inst: Inst,
    dependent: Node,
    stack_index: int,
    stack: Seq<Entry>,
) -> Step {
    if inst >= setting.function.insts@.len() {
        Err(StackifyError::MalformedFunction)
    } else {
        let dependents = if is_root(graph, node) {
            graph.dependents(node).len()
        } else {
            (graph.dependents(node).len() - 1) as nat
        };
        let results = setting.function.insts@[inst as int].results@;
        if results.len() == 0 {
            Ok((walk, stack))
        } else if results.len() == 1 {
            let consume = may_consume(
                graph,
                schedule,
                node,
                root_of(graph, node),
                dependent,
                dependents,
                live_after_block(setting, place.emitting, results[0]),
            );
            fetch_step(
                walk,
                place.current,
                results[0],
                stack_index,
                consume,
                order_is_free(setting, dependent),
                stack,
            )
        } else {
            match graph.link_index(Link { dependent, dependency: node }) {
                None => Err(StackifyError::MalformedFunction),
                Some(e) => fetch_used_step(
                    setting,
                    walk,
                    place,
                    graph,
                    schedule,
                    node,
                    inst,
                    dependent,
                    dependents,
                    stack_index,
                    graph.used[e],
                    graph.used[e].len() as int,
                    stack,
                ),
            }
        }
    }
}

/// The stack made ready for a branch of `inst` to `destination` with the
/// arguments `args`, written to the block `at`.
pub open spec fn prepare_branch_step(
    setting: Setting,
    walk: Walk,
    inst: Inst,
    destination: Block,
    args: Seq<Value>,
    at: BlockId,
    stack: Seq<Entry>,
) -> Step {
    let pp = ProgramPoint::Block(destination);
    if !drops_in_reach(stack, 0, 0, args, &setting.liveness, pp) {
        Err(StackifyError::LimitExceeded)
    } else {
        let cleared = retain_from(stack, 0, args, &setting.liveness, pp);
        let dropped = walk.write(at, fuse_drops(drop_plan(stack, 0, 0, args, &setting.liveness, pp), 0));
        match prepare_error(cleared, args, &setting.liveness, inst) {
            Some(e) => Err(e),
            None => {
                let ops = prepare_ops(cleared, args, &setting.liveness, inst);
                Ok((dropped.write(at, ops), apply_all(ops, cleared)))
            },
        }
    }
}

/// Every destination of a branch is entered with its arguments on top of
/// the stack, the first topmost: where the stack can be made ready for a
/// branch, it then holds the arguments so, whatever it held before.
pub proof fn lemma_branch_arguments_on_top(
    setting: Setting,
    walk: Walk,
    inst: Inst,
    destination: Block,
    args: Seq<Value>,
    at: BlockId,
    stack: Seq<Entry>,
)
    ensures
        prepare_branch_step(setting, walk, inst, destination, args, at, stack) matches Ok(
            (_, ready),
        ) ==> arranged(ready, args),
{
    let pp = ProgramPoint::Block(destination);
    let cleared = retain_from(stack, 0, args, &setting.liveness, pp);
    if prepare_branch_step(setting, walk, inst, destination, args, at, stack) is Ok {
        lemma_prepare_arranges(cleared, args, &setting.liveness, inst);
    }
}

/// A loop opened in the block `at`: the walk, and the new block that is
/// the body of the loop.
pub open spec fn open_loop_step(walk: Walk, at: BlockId) -> Result<(Walk, BlockId), StackifyError> {
    if walk.blocks.len() >= u32::MAX {
        Err(StackifyError::LimitExceeded)
    } else {
        let body = walk.blocks.len() as BlockId;
        Ok((walk.create().write(at, seq![Op::Push(Felt::of(1))]).write(at, seq![Op::While(body)]), body))
    }
}

/// A conditional opened in the block `at`, or in the body of a loop opened
/// there: the walk, and the new blocks that are the arms.
pub open spec fn open_conditional_step(walk: Walk, at: BlockId, in_loop: bool) -> Result<
    (Walk, BlockId, BlockId),
    StackifyError,
> {
    if walk.blocks.len() >= u32::MAX - 2 {
        Err(StackifyError::LimitExceeded)
    } else {
        let then_blk = walk.blocks.len() as BlockId;
        let else_blk = (walk.blocks.len() + 1) as BlockId;
        let created = walk.create().create();
        if in_loop {
            match open_loop_step(created, at) {
                Err(e) => Err(e),
                Ok((opened, body)) => Ok(
                    (opened.write(body, seq![Op::If(then_blk, else_blk)]), then_blk, else_blk),
                ),
            }
        } else {
            Ok((created.write(at, seq![Op::If(then_blk, else_blk)]), then_blk, else_blk))
        }
    }
}

/// The continuation of the loop that `header` heads.
pub open spec fn continue_loop_step(
    setting: Setting,
    walk: Walk,
    place: Place,
    header: Block,
    stack: Seq<Entry>,
) -> Step {
    match place.controlling {
        None => Err(StackifyError::UnexpectedCycle),
        Some(controlling) => {
            let current_level = setting.loops.level_of(controlling);
            let target_level = setting.loops.level_of(header);
            if current_level < target_level {
                Err(StackifyError::MalformedFunction)
            } else {
                let exits = (current_level - target_level) as nat;
                Ok(
                    (
                        walk.write(place.current, loopback_ops(exits)),
                        exit_entries(exits) + seq![
                            Entry::plain(Operand::Const(crate::hir::Immediate::I1(true))),
                        ] + stack,
                    ),
                )
            }
        },
    }
}

/// A jump back to a loop header from a block that lies `exits` loops deeper
/// writes one push of the true loop condition and then `exits` pushes of the
/// false one, and the stack gets their entries, the last on top. Nothing else
/// is written: no other block changes, and none is made.
pub proof fn lemma_jump_back(
    setting: Setting,
    walk: Walk,
    place: Place,
    header: Block,
    stack: Seq<Entry>,
    exits: nat,
)
    requires
        place.controlling is Some,
        setting.loops.level_of(place.controlling->0) == setting.loops.level_of(header) + exits,
        (place.current as int) < walk.blocks.len(),
    ensures
        continue_loop_step(setting, walk, place, header, stack) matches Ok((next, end)) && {
            &&& next.blocks.len() == walk.blocks.len()
            &&& next.blocks[place.current as int] == walk.blocks[place.current as int].push(
                Op::Push(Felt::of(1)),
            ) + Seq::new(exits, |i: int| Op::Push(Felt::of(0)))
            &&& forall|j: int|
                0 <= j < walk.blocks.len() && j != place.current ==> next.blocks[j] == walk.blocks[j]
            &&& end == Seq::new(
                exits,
                |i: int| Entry::plain(Operand::Const(crate::hir::Immediate::I1(false))),
            ).push(Entry::plain(Operand::Const(crate::hir::Immediate::I1(true)))) + stack
        },
{
    let next = walk.write(place.current, loopback_ops(exits));
    assert(next.blocks[place.current as int] =~= walk.blocks[place.current as int].push(
        Op::Push(Felt::of(1)),
    ) + Seq::new(exits, |i: int| Op::Push(Felt::of(0))));
    assert(exit_entries(exits) + seq![
        Entry::plain(Operand::Const(crate::hir::Immediate::I1(true))),
    ] + stack =~= Seq::new(
        exits,
        |i: int| Entry::plain(Operand::Const(crate::hir::Immediate::I1(false))),
    ).push(Entry::plain(Operand::Const(crate::hir::Immediate::I1(true)))) + stack);
}

/// The address of the global value that a computation names, if it names
/// one.
pub open spec fn address_of(setting: Setting, ix: Instruction) -> Result<u32, StackifyError> {
    match ix {
        Instruction::GlobalValue(gv) => global_address(
            &setting.program,
            &setting.function,
            gv as int,
        ),
        _ => Ok(0),
    }
}

/// The global value that a computation names, if it names one.
pub open spec fn global_of(setting: Setting, ix: Instruction) -> Option<GlobalValueData> {
    match ix {
        Instruction::GlobalValue(gv) => Some(setting.function.globals@[gv as int]),
        _ => None,
    }
}

/// The lowering of the computation `inst`: an operand for each read of a
/// value that is read more than once, and the operations of the computation,
/// which takes its operands from the top of the stack and leaves its results
/// there. There is none unless the top of the stack then holds the operands,
/// the first topmost, or the two of them in either order where the order
/// does not matter.
pub open spec fn op_step(
    setting: Setting,
    walk: Walk,
    place: Place,
    inst: Inst,
    stack: Seq<Entry>,
) -> Step {
    let data = setting.function.insts@[inst as int];
    let flexible = data.ix.binary() && data.ix.commutes();
    match address_of(setting, data.ix) {
        Err(e) => Err(e),
        Ok(addr) => match op_lowering(
            data.ix,
            global_of(setting, data.ix),
            addr,
            data.args@.len(),
            data.results@.len(),
        ) {
            Err(e) => Err(e),
            Ok(ops) => match repeat_error(stack, data.args@, 0, flexible) {
                Some(e) => Err(e),
                None => {
                    let copies = repeat_ops(stack, data.args@, 0, flexible);
                    let ready = apply_all(copies, stack);
                    if !operands_on_top(ready, data.args@, flexible) {
                        Err(StackifyError::UnexpectedStackState)
                    } else {
                        Ok(
                            (
                                walk.write(place.current, copies).write(place.current, ops),
                                result_entries(data.results@) + ready.skip(data.args@.len() as int),
                            ),
                        )
                    }
                },
            },
        },
    }
}

/// The stack with the entries at the positions `i` and after given the
/// names `params[i..]`.
pub open spec fn renamed_from(stack: Seq<Entry>, params: Seq<Value>, i: int) -> Seq<Entry>
    decreases params.len() - i,
{
    if i < 0 || i >= params.len() || i >= stack.len() {
        stack
    } else {
        renamed_from(stack.update(i, stack[i].renamed(params[i])), params, i + 1)
    }
}

/// The walk that enters the block `b`, writing to `b_prime`, from where the
/// block `came_from` was lowered, if any was.
pub open spec fn emit_walk(
    setting: Setting,
    walk: Walk,
    came_from: Option<Block>,
    controlling: Option<Block>,
    b: Block,
    b_prime: BlockId,
    stack: Seq<Entry>,
) -> Step
    decreases walk.emit_level(b), 4int, 0int, 0int,
{
    let place = Place {
        emitting: b,
        controlling: if came_from is Some {
            came_from
        } else {
            controlling
        },
        current: b_prime,
    };
    block_walk(setting, walk, place, stack)
}

/// The walk that has reached the block `b`, and whether it has reached it
/// for the first time. There is none if no block is left to reach.
pub open spec fn reach_step(walk: Walk, b: Block) -> Result<(Walk, bool), StackifyError> {
    let first = !walk.visited.contains(b);
    if first && walk.remaining == 0 {
        Err(StackifyError::UnexpectedCycle)
    } else {
        Ok(
            (
                Walk {
                    visited: walk.visited.insert(b),
                    remaining: if first {
                        (walk.remaining - 1) as nat
                    } else {
                        walk.remaining
                    },
                    ..walk
                },
                first,
            ),
        )
    }
}

/// The dependency graph by which the block `b` is lowered when it is
/// entered with `stack`. A loop header is entered again and again, and has
/// to be entered with the operands it was first entered with, which the walk
/// keeps; any other block is entered once.
pub open spec fn graph_step(
    setting: Setting,
    walk: Walk,
    b: Block,
    first: bool,
    stack: Seq<Entry>,
) -> Result<(Walk, Graph), StackifyError> {
    if setting.loops.header_of(b) is Some {
        if walk.entered.contains_key(b) && walk.entered[b] != operands_of(stack) {
            Err(StackifyError::JoinMismatch)
        } else {
            match block_graph(&setting.function, &setting.liveness, b) {
                Err(e) => Err(e),
                Ok(graph) => Ok(
                    (
                        if walk.entered.contains_key(b) {
                            walk
                        } else {
                            Walk { entered: walk.entered.insert(b, operands_of(stack)), ..walk }
                        },
                        graph,
                    ),
                ),
            }
        }
    } else if !first {
        Err(StackifyError::UnexpectedCycle)
    } else {
        match block_graph(&setting.function, &setting.liveness, b) {
            Err(e) => Err(e),
            Ok(graph) => Ok((walk, graph)),
        }
    }
}

/// Every entry into a loop header finds the same operands on the stack: the
/// walk goes on from a loop header only if the operands on the stack are
/// those that it keeps for the header, which are those of the first entry.
pub proof fn lemma_join_operands(
    setting: Setting,
    walk: Walk,
    b: Block,
    first: bool,
    stack: Seq<Entry>,
)
    requires
        setting.loops.header_of(b) is Some,
        graph_step(setting, walk, b, first, stack) is Ok,
    ensures
        graph_step(setting, walk, b, first, stack)->Ok_0.0.entered.contains_key(b),
        graph_step(setting, walk, b, first, stack)->Ok_0.0.entered[b] == operands_of(stack),
        walk.entered.contains_key(b) ==> walk.entered[b] == operands_of(stack),
        forall|h: u32| #[trigger]
            walk.entered.contains_key(h) ==> graph_step(
                setting,
                walk,
                b,
                first,
                stack,
            )->Ok_0.0.entered.contains_key(h) && graph_step(
                setting,
                walk,
                b,
                first,
                stack,
            )->Ok_0.0.entered[h] == walk.entered[h],
{
}

/// The walk through the block at which it stands, and the stack that the
/// lowering of the block ends with.
pub open spec fn block_walk(setting: Setting, walk: Walk, place: Place, stack: Seq<Entry>) -> Step
    decreases walk.emit_level(place.emitting), 3int, 0int, 0int,
{
    let b = place.emitting;
    let params = setting.function.blocks@[b as int].params@;
    if params.len() > stack.len() {
        Err(StackifyError::UnexpectedStackState)
    } else {
        let stack = renamed_from(stack, params, 0);
        match reach_step(walk, b) {
            Err(e) => Err(e),
            Ok((reached, first)) => match graph_step(setting, reached, b, first, stack) {
                Err(e) => Err(e),
                Ok((recorded, graph)) => roots_walk(
                    setting,
                    recorded,
                    place,
                    graph,
                    schedule_of(graph),
                    first,
                    0,
                    stack,
                ),
            },
        }
    }
}

/// The walk through the roots `schedule[from..]`, in the order of the
/// schedule: a tree is walked after the trees that it reads from, and the
/// tree of the instruction that ends the block last.
pub open spec fn roots_walk(
    setting: Setting,
    walk: Walk,
    place: Place,
    graph: Graph,
    schedule: Seq<Node>,
    first: bool,
    from: int,
    stack: Seq<Entry>,
) -> Step
    decreases walk.level(first), 2int, 0int, schedule.len() - from,
{
    if from < 0 || from >= schedule.len() {
        Ok((walk, stack))
    } else {
        match node_walk(setting, walk, place, graph, schedule, schedule[from], 0, first, None, stack) {
            Err(e) => Err(e),
            Ok((next, rest)) => if next.remaining <= walk.remaining {
                roots_walk(setting, next, place, graph, schedule, first, from + 1, rest)
            } else {
                Err(StackifyError::UnexpectedCycle)
            },
        }
    }
}

/// A root has been walked before every tree that reads it. The trees of a
/// block are walked in the order of the schedule: when `roots_walk` comes to
/// the place `at`, it has walked the roots before `at` and no others. Where
/// the tree at `at` holds a node that reads the root `dependency`, that root
/// is another tree and stands before `at`.
pub proof fn lemma_read_roots_walked_before(graph: Graph, e: int, at: int)
    requires
        graph.wf(),
        0 <= e < graph.links.len(),
        is_root(graph, graph.links[e].dependency),
        0 <= at < schedule_of(graph).len(),
        schedule_of(graph)[at] == root_of(graph, graph.links[e].dependent),
    ensures
        schedule_of(graph).take(at).contains(graph.links[e].dependency),
        graph.links[e].dependency != root_of(graph, graph.links[e].dependent),
{
    let schedule = schedule_of(graph);
    let dependency = graph.links[e].dependency;
    lemma_schedule(graph);
    assert(graph.nodes.contains(dependency));
    assert(schedule.contains(dependency));
    let i = schedule.index_of(dependency);
    lemma_schedule_respects_dependencies(graph, e, i, at);
    assert(schedule.take(at)[i] == dependency);
    if dependency == root_of(graph, graph.links[e].dependent) {
        lemma_schedule_respects_dependencies(graph, e, at, at);
    }
}

/// The walk through a node: a root of the schedule, or what `dependent`
/// depends on.
pub open spec fn node_walk(
    setting: Setting,
    walk: Walk,
    place: Place,
    graph: Graph,
    schedule: Seq<Node>,
    node: Node,
    stack_index: int,
    first: bool,
    dependent: Option<Node>,
    stack: Seq<Entry>,
) -> Step
    decreases walk.level(first), 1int, 4 * node.rank() + 3, 0int,
{
    match node {
        Node::Inst(inst, _) => match dependent {
            Some(dependent) => inst_dependency_walk(
                setting,
                walk,
                place,
                graph,
                schedule,
                node,
                inst,
                dependent,
                stack_index,
                first,
                stack,
            ),
            None => inst_walk(setting, walk, place, graph, schedule, node, inst, first, stack),
        },
        Node::Stack(value) => match dependent {
            Some(dependent) => stack_dependency_step(
                setting,
                walk,
                place,
                graph,
                schedule,
                node,
                value,
                dependent,
                stack_index,
                stack,
            ),
            None => stack_root_step(setting, walk, place, graph, node, value, stack),
        },
    }
}

/// The walk that serves the read by `dependent` of what `inst` defines.
pub open spec fn inst_dependency_walk(
    setting: Setting,
    walk: Walk,
    place: Place,
    graph: Graph,
    schedule: Seq<Node>,
    node: Node,
    inst: Inst,
    dependent: Node,
    stack_index: int,
    first: bool,
    stack: Seq<Entry>,
) -> Step
    decreases walk.level(first), 1int, 4 * node.rank() + 2, 0int,
{
    if root_of(graph, node) == root_of(graph, dependent) {
        inst_walk(setting, walk, place, graph, schedule, node, inst, first, stack)
    } else {
        fetch_results_step(
            setting,
            walk,
            place,
            graph,
            schedule,
            node,
            inst,
            dependent,
            stack_index,
            stack,
        )
    }
}

/// The walk through an instruction: what it depends on, then the
/// instruction itself.
pub open spec fn inst_walk(
    setting: Setting,
    walk: Walk,
    place: Place,
    graph: Graph,
    schedule: Seq<Node>,
    node: Node,
    inst: Inst,
    first: bool,
    stack: Seq<Entry>,
) -> Step
    decreases walk.level(first), 1int, 4 * node.rank() + 1, 0int,
{
    if inst >= setting.function.insts@.len() {
        Err(StackifyError::MalformedFunction)
    } else {
        match dependencies_walk(
            setting,
            walk,
            place,
            graph,
            schedule,
            node,
            first,
            graph.dependencies(node).len() as int,
            stack,
        ) {
            Err(e) => Err(e),
            Ok((next, rest)) => if next.remaining <= walk.remaining {
                terminator_walk(setting, next, place, inst, first, rest)
            } else {
                Err(StackifyError::UnexpectedCycle)
            },
        }
    }
}

/// The walk through the first `k` dependencies of `node`, last first: each
/// is brought to the top of the stack, so that the first ends on top, the
/// second below it, and so on.
pub open spec fn dependencies_walk(
    setting: Setting,
    walk: Walk,
    place: Place,
    graph: Graph,
    schedule: Seq<Node>,
    node: Node,
    first: bool,
    k: int,
    stack: Seq<Entry>,
) -> Step
    decreases walk.level(first), 1int, 4 * node.rank(), k,
{
    let dependencies = graph.dependencies(node);
    if k <= 0 || k > dependencies.len() {
        Ok((walk, stack))
    } else if dependencies[k - 1].rank() >= node.rank() {
        Err(StackifyError::CyclicDependencies)
    } else {
        match node_walk(
            setting,
            walk,
            place,
            graph,
            schedule,
            dependencies[k - 1],
            0,
            first,
            Some(node),
            stack,
        ) {
            Err(e) => Err(e),
            Ok((next, rest)) => if next.remaining <= walk.remaining {
                dependencies_walk(setting, next, place, graph, schedule, node, first, k - 1, rest)
            } else {
                Err(StackifyError::UnexpectedCycle)
            },
        }
    }
}

/// The walk on from a branch to `destination` whose arguments are ready on
/// `stack`, and the stack that the block that is written ends with. If the
/// block that is lowered heads a loop, the walk goes on in the body of the
/// loop, and the block that is written ends with the stack as it is. Else
/// it goes on in the block that is written, which ends with the stack that
/// the destination ends with.
pub open spec fn branch_walk(
    setting: Setting,
    walk: Walk,
    place: Place,
    destination: Block,
    stack: Seq<Entry>,
) -> Step
    decreases walk.level(true), 0int, 0int, 1int,
{
    if setting.loops.header_of(place.emitting) is Some {
        match open_loop_step(walk, place.current) {
            Err(e) => Err(e),
            Ok((opened, body)) => if opened.remaining <= walk.remaining {
                match emit_walk(
                    setting,
                    opened,
                    Some(place.emitting),
                    place.controlling,
                    destination,
                    body,
                    stack,
                ) {
                    Err(e) => Err(e),
                    Ok((done, _)) => Ok((done, stack)),
                }
            } else {
                Err(StackifyError::UnexpectedCycle)
            },
        }
    } else {
        emit_walk(
            setting,
            walk,
            Some(place.emitting),
            place.controlling,
            destination,
            place.current,
            stack,
        )
    }
}

/// The walk into one arm of a conditional: the stack is made ready in the
/// block of the arm, and the destination is entered there.
pub open spec fn arm_walk(
    setting: Setting,
    walk: Walk,
    place: Place,
    inst: Inst,
    destination: Block,
    args: Seq<Value>,
    arm: BlockId,
    stack: Seq<Entry>,
) -> Result<Walk, StackifyError>
    decreases walk.level(true), 0int, 0int, 1int,
{
    match prepare_branch_step(setting, walk, inst, destination, args, arm, stack) {
        Err(e) => Err(e),
        Ok((prepared, ready)) => if prepared.remaining <= walk.remaining {
            reached(
                emit_walk(
                    setting,
                    prepared,
                    Some(place.emitting),
                    place.controlling,
                    destination,
                    arm,
                    ready,
                ),
            )
        } else {
            Err(StackifyError::UnexpectedCycle)
        },
    }
}

/// The lowering of the return `inst`.
pub open spec fn return_step(
    setting: Setting,
    walk: Walk,
    place: Place,
    inst: Inst,
    stack: Seq<Entry>,
) -> Step {
    let data = setting.function.insts@[inst as int];
    let level = controlling_level(setting, place);
    match data.ix {
        Instruction::RetImm(arg) => match push_op_of(arg) {
            None => Err(StackifyError::UnsupportedImmediate),
            Some(_) => Ok(
                (
                    walk.write(place.current, return_imm_ops(arg, level, stack.len())),
                    exit_entries(level) + pushed_entries(arg),
                ),
            ),
        },
        _ => if data.args@.len() != 1 {
            Err(StackifyError::UnsupportedReturn)
        } else {
            match return_failure(stack, data.args@[0]) {
                Some(e) => Err(e),
                None => Ok(
                    (
                        walk.write(place.current, return_ops(level, stack.len())),
                        exit_entries(level) + seq![stack[0]],
                    ),
                ),
            }
        },
    }
}

/// The lowering of the branch `inst` of a loop header that is retraced: the
/// arguments of an unconditional branch are made ready, and the loop is
/// continued; the arms of a conditional were lowered when the header was
/// first reached.
pub open spec fn retrace_step(
    setting: Setting,
    walk: Walk,
    place: Place,
    inst: Inst,
    stack: Seq<Entry>,
) -> Step {
    if setting.loops.header_of(place.emitting) is None {
        Err(StackifyError::UnexpectedCycle)
    } else {
        match setting.function.insts@[inst as int].ix {
            Instruction::Br { destination, args } => match prepare_branch_step(
                setting,
                walk,
                inst,
                destination,
                args@,
                place.current,
                stack,
            ) {
                Err(e) => Err(e),
                Ok((prepared, ready)) => continue_loop_step(
                    setting,
                    prepared,
                    place,
                    place.emitting,
                    ready,
                ),
            },
            _ => continue_loop_step(setting, walk, place, place.emitting, stack),
        }
    }
}

/// The walk through the unconditional branch `inst` to a block that is
/// entered for the first time.
pub open spec fn br_walk(
    setting: Setting,
    walk: Walk,
    place: Place,
    inst: Inst,
    destination: Block,
    args: Seq<Value>,
    stack: Seq<Entry>,
) -> Step
    decreases walk.level(true), 0int, 0int, 2int,
{
    match prepare_branch_step(setting, walk, inst, destination, args, place.current, stack) {
        Err(e) => Err(e),
        Ok((prepared, ready)) => if prepared.remaining <= walk.remaining {
            branch_walk(setting, prepared, place, destination, ready)
        } else {
            Err(StackifyError::UnexpectedCycle)
        },
    }
}

/// The walk through the conditional branch `inst` whose arms are entered
/// for the first time, and the stack that the block that is written ends
/// with: without the condition where the fork is written to the block, with
/// it where the block heads a loop and the fork is written to the body of
/// the loop, which takes the condition.
pub open spec fn cond_br_walk(
    setting: Setting,
    walk: Walk,
    place: Place,
    inst: Inst,
    then_dest: Block,
    then_args: Seq<Value>,
    else_dest: Block,
    else_args: Seq<Value>,
    stack: Seq<Entry>,
) -> Step
    decreases walk.level(true), 0int, 0int, 2int,
{
    if stack.len() == 0 {
        // The condition is not there.
        Err(StackifyError::UnexpectedStackState)
    } else {
        match open_conditional_step(
            walk,
            place.current,
            setting.loops.header_of(place.emitting) is Some,
        ) {
            Err(e) => Err(e),
            Ok((opened, then_blk, else_blk)) => {
                let rest = stack.skip(1);
                if opened.remaining <= walk.remaining {
                match arm_walk(
                    setting,
                    opened,
                    place,
                    inst,
                    then_dest,
                    then_args,
                    then_blk,
                    rest,
                ) {
                    Err(e) => Err(e),
                    Ok(taken) => if taken.remaining <= walk.remaining {
                        match arm_walk(
                            setting,
                            taken,
                            place,
                            inst,
                            else_dest,
                            else_args,
                            else_blk,
                            rest,
                        ) {
                            Err(e) => Err(e),
                            Ok(done) => Ok(
                                (
                                    done,
                                    if setting.loops.header_of(place.emitting) is Some {
                                        stack
                                    } else {
                                        rest
                                    },
                                ),
                            ),
                        }
                    } else {
                        Err(StackifyError::UnexpectedCycle)
                    },
                }
            } else {
                Err(StackifyError::UnexpectedCycle)
            }
        },
    }
    }
}

/// The walk through the instruction `inst` itself, once what it depends on
/// is on the stack.
pub open spec fn terminator_walk(
    setting: Setting,
    walk: Walk,
    place: Place,
    inst: Inst,
    first: bool,
    stack: Seq<Entry>,
) -> Step
    decreases walk.level(first), 0int, 0int, 3int,
{
    match setting.function.insts@[inst as int].ix {
        Instruction::RetImm(_) | Instruction::Ret => return_step(setting, walk, place, inst, stack),
        Instruction::Br { destination, args } => if first {
            br_walk(setting, walk, place, inst, destination, args@, stack)
        } else {
            retrace_step(setting, walk, place, inst, stack)
        },
        Instruction::CondBr { then_dest, then_args, else_dest, else_args } => if first {
            cond_br_walk(
                setting,
                walk,
                place,
                inst,
                then_dest,
                then_args@,
                else_dest,
                else_args@,
                stack,
            )
        } else {
            retrace_step(setting, walk, place, inst, stack)
        },
        Instruction::Switch { .. } => Err(StackifyError::UnexpectedSwitch),
        _ => op_step(setting, walk, place, inst, stack),
    }
}

} // verus!
