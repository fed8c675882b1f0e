//! The driver of the pass: it walks the control flow graph from the entry
//! block, lowers each block by its schedule, and frames loops and conditionals.

use std::rc::Rc;
use rustc_hash::FxHashSet;
use vstd::prelude::*;
use crate::analysis::{LivenessAnalysis, LoopAnalysis};
use crate::arguments::prepare_stack_arguments;
use crate::clearing::drop_unused_operands_at;
use crate::cache::CacheEntry;
use crate::collections::{
    cache_get, cache_insert, cache_new, collected, id_set_insert, id_set_new, node_buffer_get,
    node_buffer_len, node_buffer_new, node_buffer_push, BlockCache, NodeBuffer, SharedEntry,
};
use crate::dependencies::{block_graph, build_dependency_graph};
use crate::depgraph::{dependencies_from, DependencyGraph, Graph, Link, Node};
use crate::error::StackifyError;
use crate::globals::calculate_global_value_addr;
use crate::hir::{Block, Function, Inst, Instruction, Program, ProgramPoint, Value};
use crate::lowering::{
    apply_computation, duplicate_repeated_operands, emit_loopback, emit_return, emit_return_imm,
    lower_computation,
};
use crate::masm::{
    self, begins_with, grows, lemma_begins_with_more, lemma_grows_same, lemma_grows_trans,
    lemma_net_effect_few, lemma_written_trans, net_effect, refers_within, written, BlockId, Felt,
    Op, MAX_OPERAND_INDEX,
};
use crate::operand_stack::{accounts, operands_of, Entry, Operand, OperandStack};
use crate::oracle::{fetch_operand, is_consuming_read};
use crate::primitives::drop_operand_at_position;
use crate::treegraph::{
    lemma_dependencies_rank, lemma_schedule, schedule_of, TreeGraph,
};
use crate::walk::{
    arm_walk, block_walk, br_walk, branch_walk, cond_br_walk, continue_loop_step,
    controlling_level,
    dependencies_walk, emit_walk,
    fetch_step, fetch_used_step, graph_step, inst_dependency_walk, inst_walk, lemma_write_twice,
    live_after_block, node_walk, op_step, open_conditional_step, open_loop_step, order_is_free,
    prepare_branch_step, reach_step, renamed_from, retrace_step, return_step, roots_walk,
    stack_dependency_step, terminator_walk, Place, Setting, Step, Walk,
};

verus! {

/// Whether `after` is `before` written further: it has the blocks of
/// `before`, each with the operations it had and maybe more behind them,
/// and maybe more blocks.
pub open spec fn extends(after: masm::Function, before: masm::Function) -> bool {
    &&& after.id == before.id
    &&& after.body == before.body
    &&& before.blocks@.len() <= after.blocks@.len()
    &&& forall|k: int|
        0 <= k < before.blocks@.len() ==> begins_with(
            (#[trigger] after.blocks@[k])@,
            before.blocks@[k]@,
        )
}

/// A function is itself written further, by nothing.
pub proof fn lemma_extends_refl(a: masm::Function)
    ensures
        extends(a, a),
{
    assert forall|k: int| 0 <= k < a.blocks@.len() implies begins_with(
        (#[trigger] a.blocks@[k])@,
        a.blocks@[k]@,
    ) by {
        lemma_begins_with_more(a.blocks@[k]@, Seq::empty());
    }
}

/// Writing further is transitive.
pub proof fn lemma_extends_trans(c: masm::Function, b: masm::Function, a: masm::Function)
    requires
        extends(c, b),
        extends(b, a),
    ensures
        extends(c, a),
{
    assert forall|k: int| 0 <= k < a.blocks@.len() implies begins_with(
        (#[trigger] c.blocks@[k])@,
        a.blocks@[k]@,
    ) by {
        let x = a.blocks@[k]@;
        let y = b.blocks@[k]@;
        let z = c.blocks@[k]@;
        assert(begins_with(y, x));
        assert(begins_with(z, y));
        assert(z.take(x.len() as int) =~= y.take(x.len() as int));
    }
}

/// A function in which the block `k` got operations behind those it had,
/// none of which passes control on, and in which nothing else changed, is the
/// function written further, and sound if the function was.
pub proof fn lemma_extends_block(after: masm::Function, before: masm::Function, k: int)
    requires
        after.id == before.id,
        after.body == before.body,
        after.blocks@.len() == before.blocks@.len(),
        0 <= k < before.blocks@.len(),
        grows(after.blocks@[k]@, before.blocks@[k]@),
        forall|j: int| 0 <= j < before.blocks@.len() && j != k ==> after.blocks@[j] == before.blocks@[j],
    ensures
        extends(after, before),
        before.wf() ==> after.wf(),
{
    if before.wf() {
        assert forall|j: int| 0 <= j < after.blocks@.len() implies refers_within(
            (#[trigger] after.blocks@[j])@,
            after.blocks@.len() as int,
        ) by {
            assert(refers_within(before.blocks@[j]@, before.blocks@.len() as int));
            if j == k {
                let old_ops = before.blocks@[k]@;
                let new_ops = after.blocks@[k]@;
                assert forall|i: int| 0 <= i < new_ops.len() implies match #[trigger] new_ops[i] {
                    Op::If(then_blk, else_blk) => then_blk < after.blocks@.len() && else_blk
                        < after.blocks@.len(),
                    Op::While(body) => body < after.blocks@.len(),
                    _ => true,
                } by {
                    if i < old_ops.len() {
                        assert(new_ops.take(old_ops.len() as int)[i] == old_ops[i]);
                    } else {
                        assert(written(new_ops, old_ops)[i - old_ops.len()] == new_ops[i]);
                    }
                }
            }
        }
    }
    assert forall|j: int| 0 <= j < before.blocks@.len() implies begins_with(
        (#[trigger] after.blocks@[j])@,
        before.blocks@[j]@,
    ) by {
        if j != k {
            assert(after.blocks@[j]@.take(before.blocks@[j]@.len() as int) =~= before.blocks@[j]@);
        }
    }
}

/// Whether the lowering of the instruction `inst` ends with a push of a
/// loop condition: it returns from within a loop, or it is the branch of a
/// loop header that is retraced.
pub open spec fn closes(setting: Setting, place: Place, inst: Inst, first: bool) -> bool {
    match setting.function.insts@[inst as int].ix {
        Instruction::Ret | Instruction::RetImm(_) => controlling_level(setting, place) >= 1,
        Instruction::Br { .. } | Instruction::CondBr { .. } => !first,
        _ => false,
    }
}

/// Whether the lowering by `schedule` ends with a push of a loop
/// condition: the last root of the schedule is an instruction whose lowering
/// does.
pub open spec fn closes_last(setting: Setting, place: Place, schedule: Seq<Node>, first: bool) -> bool {
    &&& schedule.len() > 0
    &&& schedule.last() is Inst
    &&& (schedule.last()->Inst_0 as int) < setting.function.insts@.len()
    &&& closes(setting, place, schedule.last()->Inst_0, first)
}

/// Whether the block at which the walk stands, lowered by `graph`, ends
/// with a push of a loop condition: the last root of its schedule, which is
/// the instruction that ends the block, is an instruction whose lowering does.
pub open spec fn closes_block(setting: Setting, place: Place, graph: Graph, first: bool) -> bool {
    closes_last(setting, place, schedule_of(graph), first)
}

/// Whether `ops` ends with a push of a loop condition.
pub open spec fn ends_with_condition(ops: Seq<Op>) -> bool {
    ops.len() > 0 && (ops.last() == Op::Push(Felt::of(1)) || ops.last() == Op::Push(Felt::of(0)))
}

/// Whether every path through the block `b` ends with a push of a loop
/// condition: the block ends with such a push; or with a conditional both
/// arms of which do; or with a loop whose body does, or whose body ends
/// with a conditional both arms of which do. The bodies and arms are blocks
/// behind `b`, at `lo` or after.
#[verifier::opaque]
pub open spec fn framed(blocks: Seq<Seq<Op>>, b: int, lo: int) -> bool
    decreases blocks.len() - b,
{
    if b < 0 || b >= blocks.len() || blocks[b].len() == 0 {
        false
    } else {
        match blocks[b].last() {
            Op::If(t, e) => if b < t < blocks.len() && b < e < blocks.len() && lo <= t && lo <= e {
                framed(blocks, t as int, lo) && framed(blocks, e as int, lo)
            } else {
                false
            },
            Op::While(body) => if b < body < blocks.len() && lo <= body {
                if blocks[body as int].len() > 0 && blocks[body as int].last() is If {
                    let t = blocks[body as int].last()->If_0;
                    let e = blocks[body as int].last()->If_1;
                    if b < t < blocks.len() && b < e < blocks.len() && lo <= t && lo <= e {
                        framed(blocks, t as int, lo) && framed(blocks, e as int, lo)
                    } else {
                        false
                    }
                } else {
                    framed(blocks, body as int, lo)
                }
            } else {
                false
            },
            _ => ends_with_condition(blocks[b]),
        }
    }
}

/// A block that is framed stays so when blocks are added, the block itself
/// and the blocks at `lo` and after stay as they are, and `lo` is lowered.
pub proof fn lemma_framed_kept(was: Seq<Seq<Op>>, is: Seq<Seq<Op>>, b: int, lo: int, lower: int)
    requires
        framed(was, b, lo),
        lower <= lo,
        was.len() <= is.len(),
        is[b] == was[b],
        forall|j: int| lo <= j < was.len() ==> #[trigger] is[j] == was[j],
    ensures
        framed(is, b, lower),
    decreases was.len() - b,
{
    reveal(framed);
    match was[b].last() {
        Op::If(t, e) => {
            lemma_framed_kept(was, is, t as int, lo, lower);
            lemma_framed_kept(was, is, e as int, lo, lower);
        },
        Op::While(body) => {
            assert(is[body as int] == was[body as int]);
            if was[body as int].len() > 0 && was[body as int].last() is If {
                let t = was[body as int].last()->If_0;
                let e = was[body as int].last()->If_1;
                lemma_framed_kept(was, is, t as int, lo, lower);
                lemma_framed_kept(was, is, e as int, lo, lower);
            } else {
                lemma_framed_kept(was, is, body as int, lo, lower);
            }
        },
        _ => {},
    }
}

/// A block that ends with a loop is framed if the body of the loop, a block
/// behind it at `lo` or after, is.
pub proof fn lemma_framed_loop(blocks: Seq<Seq<Op>>, b: int, body: BlockId, lo: int)
    requires
        0 <= b < body < blocks.len(),
        lo <= body,
        blocks[b].len() > 0,
        blocks[b].last() == Op::While(body),
        framed(blocks, body as int, lo),
    ensures
        framed(blocks, b, lo),
{
    reveal(framed);
}

/// Whether the lowering of the instruction `inst`, which ends the block
/// `emitting`, leaves every path through what it writes ending with a push of
/// a loop condition, as far as `fuel` blocks down: it returns from within a
/// loop; or it is the branch of a loop header that is retraced; or it is a
/// branch whose destinations are lowered so in turn. The blocks of `visited`
/// have been reached.
#[verifier::opaque]
pub open spec fn turns(
    setting: Setting,
    visited: Set<u32>,
    emitting: Block,
    controlling: Option<Block>,
    inst: Inst,
    first: bool,
    fuel: nat,
) -> bool
    decreases fuel, 0nat,
{
    (inst as int) < setting.function.insts@.len() && match setting.function.insts@[inst as int].ix {
        Instruction::Ret | Instruction::RetImm(_) => match controlling {
            Some(block) => setting.loops.level_of(block) >= 1,
            None => setting.loops.level_of(emitting) >= 1,
        },
        Instruction::Br { destination, .. } => !first || (fuel > 0 && loops_on(
            setting,
            visited,
            Some(emitting),
            destination,
            (fuel - 1) as nat,
        )),
        Instruction::CondBr { then_dest, else_dest, .. } => !first || (fuel > 0 && loops_on(
            setting,
            visited,
            Some(emitting),
            then_dest,
            (fuel - 1) as nat,
        ) && loops_on(setting, visited, Some(emitting), else_dest, (fuel - 1) as nat)),
        _ => false,
    }
}

/// Whether the lowering of the block `b`, entered from `controlling` when
/// the blocks of `visited` have been reached, leaves every path through what
/// it writes ending with a push of a loop condition: the instruction that
/// its schedule ends with does.
#[verifier::opaque]
pub open spec fn loops_on(
    setting: Setting,
    visited: Set<u32>,
    controlling: Option<Block>,
    b: Block,
    fuel: nat,
) -> bool
    decreases fuel, 1nat,
{
    let schedule = schedule_of(block_graph(&setting.function, &setting.liveness, b)->Ok_0);
    schedule.len() > 0 && schedule.last() is Inst && turns(
        setting,
        visited.insert(b),
        b,
        controlling,
        schedule.last()->Inst_0,
        !visited.contains(b),
        fuel,
    )
}

/// What holds of the lowering of a block when some blocks have been reached
/// holds of it when more have.
pub proof fn lemma_loops_on_grows(
    setting: Setting,
    visited: Set<u32>,
    more: Set<u32>,
    controlling: Option<Block>,
    b: Block,
    fuel: nat,
)
    requires
        loops_on(setting, visited, controlling, b, fuel),
        visited.subset_of(more),
    ensures
        loops_on(setting, more, controlling, b, fuel),
    decreases fuel,
{
    reveal(loops_on);
    reveal(turns);
    let schedule = schedule_of(block_graph(&setting.function, &setting.liveness, b)->Ok_0);
    let inst = schedule.last()->Inst_0;
    if !more.contains(b) && fuel > 0 {
        assert(visited.insert(b).subset_of(more.insert(b)));
        match setting.function.insts@[inst as int].ix {
            Instruction::Br { destination, .. } => {
                lemma_loops_on_grows(
                    setting,
                    visited.insert(b),
                    more.insert(b),
                    Some(b),
                    destination,
                    (fuel - 1) as nat,
                );
            },
            Instruction::CondBr { then_dest, else_dest, .. } => {
                lemma_loops_on_grows(
                    setting,
                    visited.insert(b),
                    more.insert(b),
                    Some(b),
                    then_dest,
                    (fuel - 1) as nat,
                );
                lemma_loops_on_grows(
                    setting,
                    visited.insert(b),
                    more.insert(b),
                    Some(b),
                    else_dest,
                    (fuel - 1) as nat,
                );
            },
            _ => {},
        }
    }
}

/// Whether a block may be entered with the operands of `stack` when it was
/// first entered with `recorded`: the operands are the same, place by place.
pub fn check_join_state(recorded: &Vec<Operand>, stack: &OperandStack) -> (result: Result<
    (),
    StackifyError,
>)
    ensures
        recorded@ == operands_of(stack@) <==> result is Ok,
        result is Err ==> result == Err::<(), StackifyError>(StackifyError::JoinMismatch),
{
    let operands = stack.operands();
    if operands.len() != recorded.len() {
        return Err(StackifyError::JoinMismatch);
    }
    let mut i: usize = 0;
    while i < operands.len()
        invariant
            i <= operands@.len(),
            operands@.len() == recorded@.len(),
            operands@ == operands_of(stack@),
            forall|j: int| 0 <= j < i ==> operands@[j] == recorded@[j],
        decreases operands@.len() - i,
    {
        if !operands[i].is(&recorded[i]) {
            return Err(StackifyError::JoinMismatch);
        }
        i = i + 1;
    }
    assert(recorded@ =~= operands@);
    Ok(())
}

/// Gives the entries on top of the stack the names of the parameters
/// `params`, the first parameter being on top. Fails if the stack holds
/// fewer entries than there are parameters.
pub fn rename_parameters(params: &[Value], stack: &mut OperandStack) -> (result: Result<
    (),
    StackifyError,
>)
    ensures
        params@.len() <= old(stack)@.len() <==> result is Ok,
        result is Err ==> result == Err::<(), StackifyError>(StackifyError::UnexpectedStackState),
        result is Ok ==> final(stack)@ == renamed_from(old(stack)@, params@, 0),
        final(stack)@.len() == old(stack)@.len(),
{
    if params.len() > stack.len() {
        return Err(StackifyError::UnexpectedStackState);
    }
    let mut i: usize = 0;
    while i < params.len()
        invariant
            i <= params@.len() <= stack@.len(),
            stack@.len() == old(stack)@.len(),
            renamed_from(stack@, params@, i as int) == renamed_from(old(stack)@, params@, 0),
        decreases params@.len() - i,
    {
        stack.rename(i, params[i]);
        i = i + 1;
    }
    Ok(())
}

/// The state of the emitter while it lowers one function.
pub struct MasmEmitter<'a> {
    /// The program that the function belongs to.
    program: &'a Program,
    /// The function that is lowered.
    f: &'a Function,
    /// The function that is written.
    f_prime: masm::Function,
    loops: &'a LoopAnalysis,
    liveness: &'a LivenessAnalysis,
    /// The block whose jump back to a loop header is being lowered, if the
    /// emitter is retracing a header.
    controlling: Option<Block>,
    /// The block that is being lowered.
    emitting: Option<Block>,
    /// The block that is being written.
    current_block: BlockId,
    /// What is kept of the loop headers that have been reached.
    cached: BlockCache,
    /// The blocks that have been reached.
    visited: FxHashSet<u32>,
    /// How many blocks of the function have not been reached yet.
    remaining: usize,
}

/// What `node` depends on, in the order of the edges.
fn dependencies_of(depgraph: &DependencyGraph, node: &Node) -> (dependencies: NodeBuffer)
    ensures
        collected(dependencies) == depgraph@.dependencies(*node),
{
    let mut dependencies = node_buffer_new();
    let n = depgraph.num_links();
    let mut e: usize = 0;
    assert(collected(dependencies) + dependencies_from(depgraph@.links, *node, 0)
        =~= dependencies_from(depgraph@.links, *node, 0));
    while e < n
        invariant
            e <= n,
            n == depgraph@.links.len(),
            collected(dependencies) + dependencies_from(depgraph@.links, *node, e as int)
                == dependencies_from(depgraph@.links, *node, 0),
        decreases n - e,
    {
        let link = depgraph.link(e);
        let ghost before = collected(dependencies);
        if link.dependent.is(node) {
            node_buffer_push(&mut dependencies, link.dependency);
            assert(collected(dependencies) + dependencies_from(depgraph@.links, *node, e + 1)
                =~= before + dependencies_from(depgraph@.links, *node, e as int));
        }
        e = e + 1;
    }
    assert(collected(dependencies) + Seq::<Node>::empty() =~= collected(dependencies));
    dependencies
}

impl<'a> MasmEmitter<'a> {
    /// Whether the state is sound.
    pub closed spec fn inv(&self) -> bool {
        &&& self.f.wf()
        &&& self.f_prime.wf()
        &&& (self.current_block as int) < self.f_prime.blocks@.len()
        &&& (self.emitting matches Some(b) ==> (b as int) < self.f.blocks@.len())
        &&& forall|b: u32| #[trigger]
            self.cached@.contains_key(b) ==> block_graph(self.f, self.liveness, b) == Ok::<
                Graph,
                StackifyError,
            >(self.cached@[b].graph())
    }

    /// Whether the emitter has come to `walk` and `stack` is `entries`, if
    /// `step` says so, or `result` is the error that `step` is.
    pub open spec fn tracks(
        &self,
        stack: Seq<Entry>,
        result: Result<(), StackifyError>,
        step: Step,
    ) -> bool {
        match step {
            Ok((walk, entries)) => result is Ok && self.walk() == walk && stack == entries,
            Err(e) => result == Err::<(), StackifyError>(e),
        }
    }

    /// Whether the blocks that there were at `before`, but for the block
    /// `except`, are as they were.
    pub closed spec fn kept_but(&self, before: &Self, except: BlockId) -> bool {
        &&& before.f_prime.blocks@.len() <= self.f_prime.blocks@.len()
        &&& forall|j: int|
            0 <= j < before.f_prime.blocks@.len() && j != except ==> #[trigger] self.f_prime.blocks@[j]
                == before.f_prime.blocks@[j]
    }

    /// Whether the emitter has left alone since `before` every block but the
    /// one that it writes, and what it wrote behind that block has the net
    /// effect `delta`.
    pub closed spec fn steady_by(&self, before: &Self, delta: int) -> bool {
        &&& self.kept_but(before, before.current_block)
        &&& begins_with(
            self.f_prime.blocks@[before.current_block as int]@,
            before.f_prime.blocks@[before.current_block as int]@,
        )
        &&& net_effect(
            written(
                self.f_prime.blocks@[before.current_block as int]@,
                before.f_prime.blocks@[before.current_block as int]@,
            ),
        ) == delta
    }

    /// Whether the emitter has left alone since `before` every block but the
    /// one that it writes, and what it wrote there accounts for the change
    /// of the stack from `was` to `is`: the net effect of what the block got
    /// is the change in the depth of the stack.
    pub open spec fn steady(&self, before: &Self, is: Seq<Entry>, was: Seq<Entry>) -> bool {
        self.steady_by(before, is.len() - was.len())
    }

    /// Staying in the block is transitive, and the net effects add up.
    proof fn lemma_steady_by_trans(&self, mid: &Self, before: &Self, first: int, second: int)
        requires
            self.steady_by(mid, second),
            mid.steady_by(before, first),
            mid.current_block == before.current_block,
            (before.current_block as int) < before.f_prime.blocks@.len(),
        ensures
            self.steady_by(before, first + second),
    {
        let at = before.current_block as int;
        lemma_written_trans(
            self.f_prime.blocks@[at]@,
            mid.f_prime.blocks@[at]@,
            before.f_prime.blocks@[at]@,
        );
    }

    /// Staying in the block is transitive.
    proof fn lemma_steady_trans(
        &self,
        mid: &Self,
        before: &Self,
        is: Seq<Entry>,
        between: Seq<Entry>,
        was: Seq<Entry>,
    )
        requires
            self.steady(mid, is, between),
            mid.steady(before, between, was),
            mid.current_block == before.current_block,
            (before.current_block as int) < before.f_prime.blocks@.len(),
        ensures
            self.steady(before, is, was),
    {
        self.lemma_steady_by_trans(mid, before, between.len() - was.len(), is.len() - between.len());
    }

    /// An emitter that has written nothing has stayed in its block.
    proof fn lemma_steady_same(&self, stack: Seq<Entry>)
        requires
            (self.current_block as int) < self.f_prime.blocks@.len(),
        ensures
            self.steady(self, stack, stack),
    {
        lemma_grows_same(self.f_prime.blocks@[self.current_block as int]@);
    }

    /// An emitter that has since left alone the block that it wrote to, and
    /// every other block that there was, has stayed where it was.
    proof fn lemma_steady_kept(&self, mid: &Self, before: &Self, delta: int, except: BlockId)
        requires
            mid.steady_by(before, delta),
            self.kept_but(mid, except),
            except != before.current_block,
            (except as int) >= before.f_prime.blocks@.len() || except == before.current_block,
            (before.current_block as int) < before.f_prime.blocks@.len(),
        ensures
            self.steady_by(before, delta),
    {
    }

    /// The operations that the block that is written holds.
    pub closed spec fn current_ops(&self) -> Seq<Op> {
        self.f_prime.blocks@[self.current_block as int]@
    }

    /// After operations were written behind one block and nothing else
    /// changed, the emitter has come as far as the walk with them written.
    proof fn lemma_written(&self, before: &Self, at: BlockId, ops: Seq<Op>)
        requires
            self.f_prime.blocks@.len() == before.f_prime.blocks@.len(),
            (at as int) < before.f_prime.blocks@.len(),
            self.f_prime.blocks@[at as int]@ == before.f_prime.blocks@[at as int]@ + ops,
            forall|j: int|
                0 <= j < before.f_prime.blocks@.len() && j != at ==> self.f_prime.blocks@[j]
                    == before.f_prime.blocks@[j],
            self.visited == before.visited,
            self.cached == before.cached,
            self.remaining == before.remaining,
        ensures
            self.walk() == before.walk().write(at, ops),
    {
        assert(self.walk().blocks =~= before.walk().write(at, ops).blocks);
        assert(self.walk().entered =~= before.walk().entered);
    }

    /// What the emitter was given.
    pub closed spec fn setting(&self) -> Setting {
        Setting {
            program: *self.program,
            function: *self.f,
            loops: *self.loops,
            liveness: *self.liveness,
        }
    }

    /// How far the emitter has come.
    pub closed spec fn walk(&self) -> Walk {
        Walk {
            blocks: Seq::new(self.f_prime.blocks@.len(), |k: int| self.f_prime.blocks@[k]@),
            visited: self.visited@,
            entered: Map::new(
                |b: u32| self.cached@.contains_key(b),
                |b: u32| self.cached@[b].entered_with(),
            ),
            remaining: self.remaining as nat,
        }
    }

    /// Where the emitter stands while it lowers a block.
    pub closed spec fn place(&self) -> Place {
        Place {
            emitting: self.emitting->0,
            controlling: self.controlling,
            current: self.current_block,
        }
    }

    /// Where the emitter stands once it has entered the block `b` to write
    /// to the block `b_prime`.
    pub open spec fn entering(&self, b: Block, b_prime: BlockId) -> Place {
        Place {
            emitting: b,
            controlling: if self.came_from() is Some {
                self.came_from()
            } else {
                self.controlled_by()
            },
            current: b_prime,
        }
    }

    /// The block that the emitter is lowering, if it is lowering one.
    pub closed spec fn came_from(&self) -> Option<Block> {
        self.emitting
    }

    /// The block whose jump back the emitter is lowering, if any.
    pub closed spec fn controlled_by(&self) -> Option<Block> {
        self.controlling
    }

    /// The function that is lowered.
    pub closed spec fn source(&self) -> &Function {
        self.f
    }

    /// The function as written so far.
    pub closed spec fn written(&self) -> masm::Function {
        self.f_prime
    }

    /// Whether the state is one that `before` can become: the same inputs,
    /// the same place in the walk, no more blocks left to reach, every block
    /// that was reached still reached, what was kept for the loop headers
    /// still kept, and the function written further.
    pub closed spec fn follows(&self, before: &Self) -> bool {
        &&& self.program == before.program
        &&& self.f == before.f
        &&& self.loops == before.loops
        &&& self.liveness == before.liveness
        &&& self.controlling == before.controlling
        &&& self.emitting == before.emitting
        &&& self.current_block == before.current_block
        &&& self.remaining <= before.remaining
        &&& before.visited@.subset_of(self.visited@)
        &&& forall|h: u32| #[trigger]
            before.cached@.contains_key(h) ==> self.cached@.contains_key(h) && self.cached@[h]
                == before.cached@[h]
        &&& extends(self.f_prime, before.f_prime)
    }

    /// Whether every path through the block that `before` writes ends with
    /// a push of a loop condition, the arms and bodies on the way being
    /// blocks made since `before`.
    pub open spec fn closed_since(&self, before: &Self) -> bool {
        framed(self.walk().blocks, before.place().current as int, before.walk().blocks.len() as int)
    }

    /// Whether the lowering of `inst`, which ends the block that is
    /// lowered, leaves every path through what it writes ending with a push
    /// of a loop condition.
    pub open spec fn turning(&self, inst: Inst, first: bool, fuel: nat) -> bool {
        turns(
            self.setting(),
            self.walk().visited,
            self.place().emitting,
            self.place().controlling,
            inst,
            first,
            fuel,
        )
    }

    /// Whether the lowering of `destination`, entered from the block that is
    /// lowered, leaves every path through what it writes ending with a push
    /// of a loop condition.
    pub open spec fn looping_on(&self, destination: Block, fuel: nat) -> bool {
        loops_on(
            self.setting(),
            self.walk().visited,
            Some(self.place().emitting),
            destination,
            fuel,
        )
    }

    /// A block that ends with a push of a loop condition is framed.
    proof fn lemma_closed_by_push(&self, before: &Self)
        requires
            self.inv(),
            before.current_block == self.current_block,
            ends_with_condition(self.current_ops()),
        ensures
            self.closed_since(before),
    {
        reveal(framed);
    }

    /// A fork both arms of which are framed is framed, and so is the loop
    /// around it, if the fork was opened in one.
    proof fn lemma_forked(
        &self,
        before: &Self,
        opened: &Self,
        in_loop: bool,
        then_blk: BlockId,
        else_blk: BlockId,
    )
        requires
            (before.current_block as int) < before.walk().blocks.len(),
            open_conditional_step(before.walk(), before.current_block, in_loop) == Ok::<
                (Walk, BlockId, BlockId),
                StackifyError,
            >((opened.walk(), then_blk, else_blk)),
            opened.walk().blocks.len() <= self.walk().blocks.len(),
            forall|j: int|
                0 <= j < opened.walk().blocks.len() && j != then_blk && j != else_blk
                    ==> #[trigger] self.walk().blocks[j] == opened.walk().blocks[j],
            framed(self.walk().blocks, then_blk as int, before.walk().blocks.len() as int),
            framed(self.walk().blocks, else_blk as int, before.walk().blocks.len() as int),
        ensures
            self.closed_since(before),
    {
        reveal(framed);
        let at = before.current_block as int;
        let blocks = self.walk().blocks;
        if in_loop {
            let body = (before.walk().blocks.len() + 2) as BlockId;
            assert(blocks[body as int] == opened.walk().blocks[body as int]);
            assert(blocks[body as int].last() == Op::If(then_blk, else_blk));
            assert(blocks[at] == opened.walk().blocks[at]);
            assert(blocks[at].last() == Op::While(body));
        } else {
            assert(blocks[at] == opened.walk().blocks[at]);
            assert(blocks[at].last() == Op::If(then_blk, else_blk));
        }
    }

    /// What was kept of the blocks is kept of what the walk holds of them.
    proof fn lemma_kept_blocks(&self, before: &Self, except: BlockId)
        requires
            self.kept_but(before, except),
        ensures
            before.walk().blocks.len() <= self.walk().blocks.len(),
            forall|j: int|
                0 <= j < before.walk().blocks.len() && j != except ==> #[trigger] self.walk().blocks[j]
                    == before.walk().blocks[j],
    {
    }

    /// What holds of the lowering of an instruction when some blocks have
    /// been reached holds of it when more have.
    proof fn lemma_turning_grows(&self, before: &Self, inst: Inst, first: bool, fuel: nat)
        requires
            before.turning(inst, first, fuel),
            self.follows(before),
        ensures
            self.turning(inst, first, fuel),
    {
        reveal(turns);
        reveal(loops_on);
        let setting = before.setting();
        let emitting = before.place().emitting;
        if first && fuel > 0 && (inst as int) < setting.function.insts@.len() {
            match setting.function.insts@[inst as int].ix {
                Instruction::Br { destination, .. } => {
                    lemma_loops_on_grows(
                        setting,
                        before.walk().visited,
                        self.walk().visited,
                        Some(emitting),
                        destination,
                        (fuel - 1) as nat,
                    );
                },
                Instruction::CondBr { then_dest, else_dest, .. } => {
                    lemma_loops_on_grows(
                        setting,
                        before.walk().visited,
                        self.walk().visited,
                        Some(emitting),
                        then_dest,
                        (fuel - 1) as nat,
                    );
                    lemma_loops_on_grows(
                        setting,
                        before.walk().visited,
                        self.walk().visited,
                        Some(emitting),
                        else_dest,
                        (fuel - 1) as nat,
                    );
                },
                _ => {},
            }
        }
    }

    /// What holds of the lowering of a destination when some blocks have
    /// been reached holds of it when more have.
    proof fn lemma_looping_grows(&self, before: &Self, destination: Block, fuel: nat)
        requires
            before.looping_on(destination, fuel),
            self.follows(before),
        ensures
            self.looping_on(destination, fuel),
    {
        lemma_loops_on_grows(
            before.setting(),
            before.walk().visited,
            self.walk().visited,
            Some(before.place().emitting),
            destination,
            fuel,
        );
    }

    /// The measure of what is left to do within a block.
    pub closed spec fn level(&self, first: bool) -> int {
        2 * self.remaining + (if first {
            1int
        } else {
            0int
        })
    }

    /// The measure of what is left to do when `block` is entered.
    pub closed spec fn emit_level(&self, block: Block) -> int {
        if self.visited@.contains(block) || self.remaining == 0 {
            2 * self.remaining
        } else {
            2 * self.remaining - 1
        }
    }

    /// Whether the graphs and the schedule belong together.
    pub open spec fn ready(schedule: Seq<Node>, depgraph: Graph, treegraph: Graph) -> bool {
        depgraph.wf() && treegraph == depgraph && schedule == schedule_of(depgraph)
    }

    /// An emitter that writes the lowering of `f` to `f_prime`.
    pub fn new(
        program: &'a Program,
        f: &'a Function,
        f_prime: masm::Function,
        loops: &'a LoopAnalysis,
        liveness: &'a LivenessAnalysis,
    ) -> (emitter: Self)
        requires
            f.wf(),
            f_prime.wf(),
        ensures
            emitter.inv(),
            emitter.source() == f,
            emitter.written() == f_prime,
            emitter.setting() == (Setting {
                program: *program,
                function: *f,
                loops: *loops,
                liveness: *liveness,
            }),
            emitter.walk() == (Walk {
                blocks: f_prime@,
                visited: Set::empty(),
                entered: Map::empty(),
                remaining: f.blocks@.len(),
            }),
            emitter.came_from() is None,
            emitter.controlled_by() is None,
    {
        let emitter = MasmEmitter {
            program,
            f,
            current_block: f_prime.body,
            f_prime,
            loops,
            liveness,
            controlling: None,
            emitting: None,
            cached: cache_new(),
            visited: id_set_new(),
            remaining: f.blocks.len(),
        };
        proof {
            assert(emitter.walk().blocks =~= f_prime@);
            assert(emitter.walk().entered =~= Map::<u32, Seq<Operand>>::empty());
        }
        emitter
    }

    /// Hands out the function as written.
    pub fn finish(self) -> (function: masm::Function)
        ensures
            function == self.written(),
            function@ == self.walk().blocks,
    {
        proof {
            assert(self.f_prime@ =~= self.walk().blocks);
        }
        self.f_prime
    }

    /// The nesting depth that returns and jumps back count from: that of the
    /// controlling block while a header is retraced, else that of the block
    /// that is lowered.
    fn controlling_loop_level(&self) -> (level: usize)
        ensures
            level == (match self.controlling {
                Some(block) => self.loops.level_of(block),
                None => match self.emitting {
                    Some(block) => self.loops.level_of(block),
                    None => 0,
                },
            }),
            self.emitting is Some ==> level == controlling_level(self.setting(), self.place()),
    {
        match self.controlling {
            Some(block) => self.loops.loop_level(block),
            None => match self.emitting {
                Some(block) => self.loops.loop_level(block),
                None => 0,
            },
        }
    }

    /// Whether `value` is live after the last instruction of the block that
    /// is lowered.
    fn is_live_after_block(&self, value: Value) -> (live: bool)
        requires
            self.inv(),
            self.emitting is Some,
        ensures
            live == live_after_block(self.setting(), self.emitting->0, value),
    {
        let block = self.emitting.unwrap();
        assert(self.f.block_wf(block as int));
        match self.f.last_inst(block) {
            Some(last) => self.liveness.is_live_after(value, ProgramPoint::Inst(last)),
            None => false,
        }
    }

    /// Whether the instruction that `dependent` stands for takes its two
    /// operands in either order.
    fn is_operand_order_flexible(&self, dependent: &Node) -> (flexible: bool)
        requires
            self.inv(),
        ensures
            flexible == order_is_free(self.setting(), *dependent),
    {
        match dependent.as_instruction() {
            Some(inst) => {
                if (inst as usize) < self.f.insts.len() {
                    let ix = &self.f.inst(inst).ix;
                    ix.is_binary() && ix.is_commutative()
                } else {
                    false
                }
            },
            None => false,
        }
    }

    /// Enters the block `b`, writing to the block `b_prime`, with `stack` as
    /// the state of the operand stack, and hands back the stack that
    /// `b_prime` ends with: what `b_prime` got accounts for the change from
    /// the one to the other. When the block has been lowered, the
    /// emitter stands where it stood, and of the blocks that there were only
    /// `b_prime` has changed; the operands that each loop header was first
    /// entered with are kept as they were, so that a header is entered
    /// with the same operands every time. Where every return that the walk comes to from
    /// `b` is entered from a block within a loop, every path through
    /// `b_prime`, into every loop and either arm of every conditional that was
    /// written, ends with a push of a loop condition.
    pub fn emit(&mut self, b: Block, b_prime: BlockId, stack: OperandStack) -> (result: Result<
        OperandStack,
        StackifyError,
    >)
        requires
            old(self).inv(),
            (b as int) < old(self).source().blocks@.len(),
            (b_prime as int) < old(self).written().blocks@.len(),
        ensures
            final(self).inv(),
            final(self).follows(old(self)),
            final(self).came_from() == old(self).came_from(),
            final(self).controlled_by() == old(self).controlled_by(),
            forall|h: u32| #[trigger]
                old(self).walk().entered.contains_key(h) ==> final(self).walk().entered.contains_key(
                    h,
                ) && final(self).walk().entered[h] == old(self).walk().entered[h],
            final(self).place() == old(self).place(),
            final(self).setting() == old(self).setting(),
            result is Ok ==> final(self).kept_but(old(self), b_prime),
            result is Ok ==> forall|j: int|
                0 <= j < old(self).written()@.len() && j != b_prime
                    ==> #[trigger] final(self).written()@[j] == old(self).written()@[j],
            final(self).source() == old(self).source(),
            extends(final(self).written(), old(self).written()),
            final(self).written().wf(),
            result is Ok && closes_block(
                old(self).setting(),
                old(self).entering(b, b_prime),
                block_graph(old(self).source(), &old(self).setting().liveness, b)->Ok_0,
                !old(self).walk().visited.contains(b),
            ) ==> ends_with_condition(final(self).written()@[b_prime as int]),
            forall|fuel: nat|
                result is Ok && #[trigger] loops_on(
                    old(self).setting(),
                    old(self).walk().visited,
                    old(self).entering(b, b_prime).controlling,
                    b,
                    fuel,
                ) ==> framed(
                    final(self).walk().blocks,
                    b_prime as int,
                    old(self).walk().blocks.len() as int,
                ),
            match emit_walk(
                old(self).setting(),
                old(self).walk(),
                old(self).came_from(),
                old(self).controlled_by(),
                b,
                b_prime,
                stack@,
            ) {
                Ok((walk, end)) => {
                    &&& result is Ok
                    &&& final(self).walk() == walk
                    &&& result->Ok_0@ == end
                    &&& accounts(
                        final(self).written()@[b_prime as int],
                        old(self).written()@[b_prime as int],
                        end,
                        stack@,
                    )
                },
                Err(e) => result is Err && result->Err_0 == e,
            },
        decreases old(self).emit_level(b), 4int, 0int,
    {
        let prev_block = self.current_block;
        let emitting = self.emitting;
        let controlling = self.controlling;
        self.current_block = b_prime;
        self.emitting = Some(b);
        if emitting.is_some() {
            self.controlling = emitting;
        }
        let ghost entered = *self;
        let result = self.emit_block(b, stack);
        proof {
            lemma_extends_refl(old(self).f_prime);
            lemma_extends_trans(self.f_prime, entered.f_prime, old(self).f_prime);
        }
        self.controlling = controlling;
        self.emitting = emitting;
        self.current_block = prev_block;
        result
    }

    /// Records that the block `b` is reached, and tells whether it is
    /// reached for the first time.
    fn reach(&mut self, b: Block) -> (result: Result<bool, StackifyError>)
        requires
            old(self).inv(),
        ensures
            final(self).inv(),
            final(self).follows(old(self)),
            match reach_step(old(self).walk(), b) {
                Ok((walk, first)) => result == Ok::<bool, StackifyError>(first) && final(self).walk()
                    == walk,
                Err(e) => result == Err::<bool, StackifyError>(e),
            },
            result matches Ok(first) ==> final(self).level(first) == old(self).emit_level(b),
            final(self).written() == old(self).written(),
    {
        proof {
            lemma_extends_refl(self.f_prime);
        }
        let first = id_set_insert(&mut self.visited, b);
        if first {
            if self.remaining == 0 {
                return Err(StackifyError::UnexpectedCycle);
            }
            self.remaining = self.remaining - 1;
        }
        proof {
            assert(self.walk().blocks =~= old(self).walk().blocks);
            assert(self.walk().entered =~= old(self).walk().entered);
        }
        Ok(first)
    }

    /// The graphs and the schedule by which the block `b` is lowered when it
    /// is entered with `stack`: for a loop header they are kept from the
    /// first visit on, together with the operands that the header was
    /// entered with then, which it has to be entered with again.
    fn graphs_of(&mut self, b: Block, first: bool, stack: &OperandStack) -> (result: Result<
        SharedEntry,
        StackifyError,
    >)
        requires
            old(self).inv(),
            (b as int) < old(self).f.blocks@.len(),
        ensures
            final(self).inv(),
            final(self).follows(old(self)),
            final(self).remaining == old(self).remaining,
            final(self).written() == old(self).written(),
            match graph_step(old(self).setting(), old(self).walk(), b, first, stack@) {
                Ok((walk, graph)) => result is Ok && result->Ok_0.graph() == graph
                    && final(self).walk() == walk,
                Err(e) => result is Err && result->Err_0 == e,
            },
    {
        proof {
            lemma_extends_refl(self.f_prime);
        }
        if self.loops.is_loop_header(b).is_some() {
            match cache_get(&self.cached, b) {
                Some(entry) => {
                    match check_join_state(entry.entry_state(), stack) {
                        Ok(_) => {},
                        Err(e) => {
                            return Err(e);
                        },
                    }
                    proof {
                        assert(self.walk().entered.contains_key(b));
                    }
                    Ok(entry)
                },
                None => {
                    let depgraph = match build_dependency_graph(b, self.f, self.liveness) {
                        Ok(depgraph) => depgraph,
                        Err(e) => {
                            return Err(e);
                        },
                    };
                    let entry: SharedEntry = Rc::new(CacheEntry::new(depgraph, stack.operands()));
                    cache_insert(&mut self.cached, b, entry.clone());
                    proof {
                        assert(self.walk().blocks =~= old(self).walk().blocks);
                        assert(self.walk().entered =~= old(self).walk().entered.insert(
                            b,
                            operands_of(stack@),
                        ));
                    }
                    Ok(entry)
                },
            }
        } else {
            if !first {
                return Err(StackifyError::UnexpectedCycle);
            }
            let depgraph = match build_dependency_graph(b, self.f, self.liveness) {
                Ok(depgraph) => depgraph,
                Err(e) => {
                    return Err(e);
                },
            };
            Ok(Rc::new(CacheEntry::new(depgraph, Vec::new())))
        }
    }

    /// Lowers the block `b` once the emitter has turned to it.
    fn emit_block(&mut self, b: Block, stack: OperandStack) -> (result: Result<
        OperandStack,
        StackifyError,
    >)
        requires
            old(self).inv(),
            (b as int) < old(self).f.blocks@.len(),
            old(self).emitting == Some(b),
        ensures
            final(self).inv(),
            final(self).follows(old(self)),
            result is Ok ==> final(self).kept_but(old(self), old(self).current_block),
            result is Ok ==> final(self).steady(old(self), result->Ok_0@, stack@),
            result is Ok && closes_block(
                old(self).setting(),
                old(self).place(),
                block_graph(old(self).source(), old(self).liveness, b)->Ok_0,
                !old(self).walk().visited.contains(b),
            ) ==> ends_with_condition(final(self).current_ops()),
            forall|fuel: nat|
                result is Ok && #[trigger] loops_on(
                    old(self).setting(),
                    old(self).walk().visited,
                    old(self).place().controlling,
                    b,
                    fuel,
                ) ==> final(self).closed_since(old(self)),
            match block_walk(old(self).setting(), old(self).walk(), old(self).place(), stack@) {
                Ok((walk, end)) => result is Ok && final(self).walk() == walk && result->Ok_0@
                    == end,
                Err(e) => result is Err && result->Err_0 == e,
            },
        decreases old(self).emit_level(b), 3int, 0int,
    {
        let mut renamed = stack;
        match rename_parameters(self.f.block_args(b).as_slice(), &mut renamed) {
            Ok(_) => {},
            Err(e) => {
                proof {
                    lemma_extends_refl(self.f_prime);
                }
                return Err(e);
            },
        }
        let first = match self.reach(b) {
            Ok(first) => first,
            Err(e) => {
                return Err(e);
            },
        };
        let ghost reached = *self;
        let entry = match self.graphs_of(b, first, &renamed) {
            Ok(entry) => entry,
            Err(e) => {
                proof {
                    lemma_extends_trans(self.f_prime, reached.f_prime, old(self).f_prime);
                }
                return Err(e);
            },
        };
        let ghost recorded = *self;
        let ghost schedule = schedule_of(entry.graph());
        let result = self.emit_schedule(
            entry.schedule(),
            entry.depgraph(),
            entry.treegraph(),
            renamed,
            first,
        );
        proof {
            lemma_extends_trans(recorded.f_prime, reached.f_prime, old(self).f_prime);
            lemma_extends_trans(self.f_prime, recorded.f_prime, old(self).f_prime);
            if result is Ok {
                self.lemma_block_closed(old(self), &recorded, b, first, schedule);
            }
        }
        result
    }

    /// A block whose schedule has been lowered so that every path through
    /// what was written ends with a push of a loop condition has been
    /// lowered so.
    proof fn lemma_block_closed(
        &self,
        before: &Self,
        recorded: &Self,
        b: Block,
        first: bool,
        schedule: Seq<Node>,
    )
        requires
            before.emitting == Some(b),
            recorded.follows(before),
            recorded.walk().visited == before.walk().visited.insert(b),
            recorded.walk().blocks == before.walk().blocks,
            first == !before.walk().visited.contains(b),
            schedule == schedule_of(
                block_graph(&before.setting().function, &before.setting().liveness, b)->Ok_0,
            ),
            forall|fuel: nat|
                schedule.len() > 0 && schedule.last() is Inst && #[trigger] recorded.turning(
                    schedule.last()->Inst_0,
                    first,
                    fuel,
                ) ==> self.closed_since(recorded),
        ensures
            forall|fuel: nat| #[trigger]
                loops_on(
                    before.setting(),
                    before.walk().visited,
                    before.place().controlling,
                    b,
                    fuel,
                ) ==> self.closed_since(before),
    {
        assert forall|fuel: nat| #[trigger]
            loops_on(
                before.setting(),
                before.walk().visited,
                before.place().controlling,
                b,
                fuel,
            ) implies self.closed_since(before) by {
            reveal(loops_on);
            reveal(turns);
            assert(recorded.turning(schedule.last()->Inst_0, first, fuel));
        }
    }

    /// Lowers a block by its schedule, from the first root to the last: a
    /// tree is lowered after the trees that it reads from, and the tree of
    /// the instruction that ends the block last.
    #[verifier::loop_isolation(false)]
    fn emit_schedule(
        &mut self,
        schedule: &Vec<Node>,
        depgraph: &DependencyGraph,
        treegraph: &TreeGraph,
        stack: OperandStack,
        is_first_visit: bool,
    ) -> (result: Result<OperandStack, StackifyError>)
        requires
            old(self).inv(),
            old(self).emitting is Some,
            Self::ready(schedule@, depgraph@, treegraph@),
        ensures
            final(self).inv(),
            final(self).follows(old(self)),
            result is Ok ==> final(self).kept_but(old(self), old(self).current_block),
            result is Ok ==> final(self).steady(old(self), result->Ok_0@, stack@),
            result is Ok && closes_last(
                old(self).setting(),
                old(self).place(),
                schedule@,
                is_first_visit,
            ) ==> ends_with_condition(final(self).current_ops()),
            forall|fuel: nat|
                result is Ok && schedule@.len() > 0 && schedule@.last() is Inst
                    && #[trigger] old(self).turning(schedule@.last()->Inst_0, is_first_visit, fuel)
                    ==> final(self).closed_since(old(self)),
            match roots_walk(
                old(self).setting(),
                old(self).walk(),
                old(self).place(),
                depgraph@,
                schedule@,
                is_first_visit,
                0,
                stack@,
            ) {
                Ok((walk, end)) => result is Ok && final(self).walk() == walk && result->Ok_0@
                    == end,
                Err(e) => result is Err && result->Err_0 == e,
            },
        decreases old(self).level(is_first_visit), 2int, 0int,
    {
        let ghost entered_with = stack@;
        let mut stack = stack;
        let mut k: usize = 0;
        proof {
            lemma_extends_refl(self.f_prime);
            lemma_schedule(depgraph@);
            self.lemma_steady_same(stack@);
        }
        while k < schedule.len()
            invariant
                k <= schedule@.len(),
                self.inv(),
                self.emitting is Some,
                self.follows(old(self)),
                Self::ready(schedule@, depgraph@, treegraph@),
                forall|node: Node| #[trigger] schedule@.contains(node) ==> depgraph@.nodes.contains(node),
                self.kept_but(old(self), old(self).current_block),
                self.steady(
                    old(self),
                    stack@,
                    entered_with,
                ),
                k == schedule@.len() && closes_last(
                    old(self).setting(),
                    old(self).place(),
                    schedule@,
                    is_first_visit,
                ) ==> ends_with_condition(self.current_ops()),
                forall|fuel: nat|
                    k == schedule@.len() && schedule@.len() > 0 && schedule@.last() is Inst
                        && #[trigger] old(self).turning(
                        schedule@.last()->Inst_0,
                        is_first_visit,
                        fuel,
                    ) ==> self.closed_since(old(self)),
                roots_walk(
                    self.setting(),
                    self.walk(),
                    self.place(),
                    depgraph@,
                    schedule@,
                    is_first_visit,
                    k as int,
                    stack@,
                ) == roots_walk(
                    old(self).setting(),
                    old(self).walk(),
                    old(self).place(),
                    depgraph@,
                    schedule@,
                    is_first_visit,
                    0,
                    entered_with,
                ),
            decreases schedule@.len() - k,
        {
            let node = schedule[k];
            assert(schedule@.contains(node));
            let ghost before = *self;
            let ghost stack_before = stack@;
            let ghost unfolded = roots_walk(
                before.setting(),
                before.walk(),
                before.place(),
                depgraph@,
                schedule@,
                is_first_visit,
                k as int,
                stack_before,
            );
            match self.emit_node(
                node,
                schedule,
                depgraph,
                treegraph,
                &mut stack,
                0,
                is_first_visit,
                None,
            ) {
                Ok(_) => {},
                Err(e) => {
                    proof {
                        lemma_extends_trans(self.f_prime, before.f_prime, old(self).f_prime);
                        assert(unfolded == Err::<(Walk, Seq<Entry>), StackifyError>(e));
                    }
                    return Err(e);
                },
            }
            proof {
                lemma_extends_trans(self.f_prime, before.f_prime, old(self).f_prime);
                self.lemma_steady_trans(&before, old(self), stack@, stack_before, entered_with);
                assert(self.walk().remaining <= before.walk().remaining);
                if k + 1 == schedule@.len() && node is Inst {
                    assert forall|fuel: nat| #[trigger]
                        old(self).turning(
                            node->Inst_0,
                            is_first_visit,
                            fuel,
                        ) implies self.closed_since(old(self)) by {
                        before.lemma_turning_grows(old(self), node->Inst_0, is_first_visit, fuel);
                        lemma_framed_kept(
                            self.walk().blocks,
                            self.walk().blocks,
                            old(self).current_block as int,
                            before.walk().blocks.len() as int,
                            old(self).walk().blocks.len() as int,
                        );
                    }
                }
                assert(unfolded == roots_walk(
                    self.setting(),
                    self.walk(),
                    self.place(),
                    depgraph@,
                    schedule@,
                    is_first_visit,
                    k + 1,
                    stack@,
                ));
            }
            k = k + 1;
        }
        Ok(stack)
    }

    /// Lowers a node of the dependency graph: a root of the schedule, or
    /// what `dependent` depends on.
    fn emit_node(
        &mut self,
        node: Node,
        schedule: &Vec<Node>,
        depgraph: &DependencyGraph,
        treegraph: &TreeGraph,
        stack: &mut OperandStack,
        stack_index: usize,
        is_first_visit: bool,
        dependent: Option<Node>,
    ) -> (result: Result<(), StackifyError>)
        requires
            old(self).inv(),
            old(self).emitting is Some,
            Self::ready(schedule@, depgraph@, treegraph@),
            depgraph@.nodes.contains(node),
        ensures
            final(self).inv(),
            final(self).follows(old(self)),
            result is Ok ==> final(self).kept_but(old(self), old(self).current_block),
            result is Ok ==> final(self).steady(old(self), final(stack)@, old(stack)@),
            result is Ok && dependent is None && node is Inst && (node->Inst_0 as int)
                < old(self).source().insts@.len() && closes(
                old(self).setting(),
                old(self).place(),
                node->Inst_0,
                is_first_visit,
            ) ==> ends_with_condition(final(self).current_ops()),
            forall|fuel: nat|
                result is Ok && dependent is None && node is Inst && #[trigger] old(self).turning(
                    node->Inst_0,
                    is_first_visit,
                    fuel,
                ) ==> final(self).closed_since(old(self)),
            final(self).tracks(
                final(stack)@,
                result,
                node_walk(
                    old(self).setting(),
                    old(self).walk(),
                    old(self).place(),
                    depgraph@,
                    schedule@,
                    node,
                    stack_index as int,
                    is_first_visit,
                    dependent,
                    old(stack)@,
                ),
            ),
        decreases old(self).level(is_first_visit), 1int, 4 * node.rank() + 3,
    {
        proof {
            lemma_extends_refl(self.f_prime);
        }
        match node {
            Node::Inst(inst, _) => match dependent {
                Some(dependent) => self.emit_inst_dependency(
                    node,
                    schedule,
                    depgraph,
                    treegraph,
                    stack,
                    stack_index,
                    is_first_visit,
                    dependent,
                    inst,
                ),
                None => self.emit_inst(
                    inst,
                    schedule,
                    depgraph,
                    treegraph,
                    stack,
                    is_first_visit,
                    node,
                ),
            },
            Node::Stack(value) => match dependent {
                Some(dependent) => self.emit_stack_dependency(
                    node,
                    schedule,
                    depgraph,
                    treegraph,
                    stack,
                    stack_index,
                    dependent,
                    value,
                ),
                None => {
                    let pos = match stack.find(value) {
                        Some(pos) => pos,
                        None => {
                            return Err(StackifyError::ValueNotFound(value));
                        },
                    };
                    let num_dependents = treegraph.num_dependents(&node);
                    let is_live_after_block = self.is_live_after_block(value);
                    if num_dependents == 0 && !is_live_after_block {
                        if pos > MAX_OPERAND_INDEX {
                            return Err(StackifyError::LimitExceeded);
                        }
                        let ghost before = self.f_prime;
                        let at = self.current_block as usize;
                        let block = &mut self.f_prime.blocks[at];
                        drop_operand_at_position(pos, stack, block);
                        proof {
                            lemma_extends_block(self.f_prime, before, at as int);
                            self.lemma_written(
                                old(self),
                                self.current_block,
                                crate::primitives::drop_ops(pos as int),
                            );
                        }
                    }
                    Ok(())
                },
            },
        }
    }

    /// Brings a value that was on the stack when the block was entered to
    /// where `dependent` takes it from: by a move if this is the last read
    /// of the value in the block and the value is not live after the block,
    /// else by a copy.
    fn emit_stack_dependency(
        &mut self,
        node: Node,
        schedule: &Vec<Node>,
        depgraph: &DependencyGraph,
        treegraph: &TreeGraph,
        stack: &mut OperandStack,
        stack_index: usize,
        dependent: Node,
        value: Value,
    ) -> (result: Result<(), StackifyError>)
        requires
            old(self).inv(),
            old(self).emitting is Some,
            Self::ready(schedule@, depgraph@, treegraph@),
        ensures
            final(self).inv(),
            final(self).follows(old(self)),
            final(self).steady(old(self), final(stack)@, old(stack)@),
            final(self).tracks(
                final(stack)@,
                result,
                stack_dependency_step(
                    old(self).setting(),
                    old(self).walk(),
                    old(self).place(),
                    depgraph@,
                    schedule@,
                    node,
                    value,
                    dependent,
                    stack_index as int,
                    old(stack)@,
                ),
            ),
    {
        proof {
            lemma_extends_refl(self.f_prime);
        }
        let num_dependents = treegraph.num_dependents(&node);
        let is_live_after_block = self.is_live_after_block(value);
        let is_last_dependent = is_consuming_read(
            node,
            node,
            dependent,
            num_dependents,
            is_live_after_block,
            schedule.as_slice(),
            treegraph,
            depgraph,
        );
        let flexible = self.is_operand_order_flexible(&dependent);
        self.fetch(value, stack_index, is_last_dependent, flexible, stack)
    }

    /// Writes the fetch of `value` to the block that is written.
    fn fetch(
        &mut self,
        value: Value,
        stack_index: usize,
        consume: bool,
        flexible: bool,
        stack: &mut OperandStack,
    ) -> (result: Result<(), StackifyError>)
        requires
            old(self).inv(),
        ensures
            final(self).inv(),
            final(self).follows(old(self)),
            final(self).steady(old(self), final(stack)@, old(stack)@),
            final(self).tracks(
                final(stack)@,
                result,
                fetch_step(
                    old(self).walk(),
                    old(self).current_block,
                    value,
                    stack_index as int,
                    consume,
                    flexible,
                    old(stack)@,
                ),
            ),
    {
        let ghost before = self.f_prime;
        let ghost ops = crate::oracle::fetch_ops(stack@, value, stack_index as int, consume, flexible);
        let at = self.current_block as usize;
        let block = &mut self.f_prime.blocks[at];
        let result = fetch_operand(value, stack_index, consume, flexible, stack, block);
        proof {
            lemma_extends_block(self.f_prime, before, at as int);
            if result is Ok {
                self.lemma_written(old(self), self.current_block, ops);
            }
        }
        result
    }

    /// Serves the read by `dependent` of what the instruction `inst`
    /// defines: the instruction is lowered here if it hangs in the tree of
    /// `dependent`; else it has been lowered, and its results are fetched.
    fn emit_inst_dependency(
        &mut self,
        node: Node,
        schedule: &Vec<Node>,
        depgraph: &DependencyGraph,
        treegraph: &TreeGraph,
        stack: &mut OperandStack,
        stack_index: usize,
        is_first_visit: bool,
        dependent: Node,
        inst: Inst,
    ) -> (result: Result<(), StackifyError>)
        requires
            old(self).inv(),
            old(self).emitting is Some,
            Self::ready(schedule@, depgraph@, treegraph@),
            depgraph@.nodes.contains(node),
            node == Node::Inst(inst, node->Inst_1),
        ensures
            final(self).inv(),
            final(self).follows(old(self)),
            result is Ok ==> final(self).kept_but(old(self), old(self).current_block),
            result is Ok ==> final(self).steady(old(self), final(stack)@, old(stack)@),
            final(self).tracks(
                final(stack)@,
                result,
                inst_dependency_walk(
                    old(self).setting(),
                    old(self).walk(),
                    old(self).place(),
                    depgraph@,
                    schedule@,
                    node,
                    inst,
                    dependent,
                    stack_index as int,
                    is_first_visit,
                    old(stack)@,
                ),
            ),
        decreases old(self).level(is_first_visit), 1int, 4 * node.rank() + 2,
    {
        proof {
            lemma_extends_refl(self.f_prime);
        }
        let dependent_tree = treegraph.root(&dependent);
        if treegraph.is_member_of(&node, &dependent_tree) {
            return self.emit_inst(inst, schedule, depgraph, treegraph, stack, is_first_visit, node);
        }
        if (inst as usize) >= self.f.insts.len() {
            return Err(StackifyError::MalformedFunction);
        }
        let num_dependents = if treegraph.is_root(&node) {
            treegraph.num_dependents(&node)
        } else {
            treegraph.num_dependents(&node) - 1
        };
        let inst_tree = treegraph.root(&node);
        let flexible = self.is_operand_order_flexible(&dependent);
        let f = self.f;
        let results = f.inst_results(inst);
        if results.len() == 0 {
            Ok(())
        } else if results.len() == 1 {
            let operand = results[0];
            let consume = is_consuming_read(
                node,
                inst_tree,
                dependent,
                num_dependents,
                self.is_live_after_block(operand),
                schedule.as_slice(),
                treegraph,
                depgraph,
            );
            self.fetch(operand, stack_index, consume, flexible, stack)
        } else {
            let e = match depgraph.edge_id(Link { dependent, dependency: node }) {
                Some(e) => e,
                None => {
                    return Err(StackifyError::MalformedFunction);
                },
            };
            let used = depgraph.used(e);
            let mut k: usize = used.len();
            proof {
                self.lemma_steady_same(stack@);
            }
            while k > 0
                invariant
                    k <= used@.len(),
                    self.inv(),
                    self.emitting is Some,
                    self.follows(old(self)),
                    (old(self).current_block as int) < old(self).f_prime.blocks@.len(),
                    Self::ready(schedule@, depgraph@, treegraph@),
                    (inst as int) < self.f.insts@.len(),
                    results@ == self.f.insts@[inst as int].results@,
                    inst_tree == crate::treegraph::root_of(depgraph@, node),
                    flexible == order_is_free(self.setting(), dependent),
                    self.steady(old(self), stack@, old(stack)@),
                    fetch_used_step(
                        self.setting(),
                        self.walk(),
                        self.place(),
                        depgraph@,
                        schedule@,
                        node,
                        inst,
                        dependent,
                        num_dependents as nat,
                        stack_index as int,
                        used@,
                        k as int,
                        stack@,
                    ) == inst_dependency_walk(
                        old(self).setting(),
                        old(self).walk(),
                        old(self).place(),
                        depgraph@,
                        schedule@,
                        node,
                        inst,
                        dependent,
                        stack_index as int,
                        is_first_visit,
                        old(stack)@,
                    ),
                decreases k,
            {
                k = k - 1;
                let operand = used[k].value;
                if !crate::analysis::contains_value(results.as_slice(), operand) {
                    return Err(StackifyError::MalformedFunction);
                }
                let consume = is_consuming_read(
                    node,
                    inst_tree,
                    dependent,
                    num_dependents,
                    self.is_live_after_block(operand),
                    schedule.as_slice(),
                    treegraph,
                    depgraph,
                );
                let ghost before = *self;
                let ghost stack_before = stack@;
                match self.fetch(operand, stack_index, consume, flexible, stack) {
                    Ok(_) => {},
                    Err(e) => {
                        proof {
                            lemma_extends_trans(self.f_prime, before.f_prime, old(self).f_prime);
                        }
                        return Err(e);
                    },
                }
                proof {
                    lemma_extends_trans(self.f_prime, before.f_prime, old(self).f_prime);
                    self.lemma_steady_trans(&before, old(self), stack@, stack_before, old(stack)@);
                }
            }
            Ok(())
        }
    }

    /// Lowers the instruction `inst` after what it depends on.
    fn emit_inst(
        &mut self,
        inst: Inst,
        schedule: &Vec<Node>,
        depgraph: &DependencyGraph,
        treegraph: &TreeGraph,
        stack: &mut OperandStack,
        is_first_visit: bool,
        node: Node,
    ) -> (result: Result<(), StackifyError>)
        requires
            old(self).inv(),
            old(self).emitting is Some,
            Self::ready(schedule@, depgraph@, treegraph@),
            depgraph@.nodes.contains(node),
            node is Inst,
            node->Inst_0 == inst,
        ensures
            final(self).inv(),
            final(self).follows(old(self)),
            result is Ok ==> final(self).kept_but(old(self), old(self).current_block),
            result is Ok ==> final(self).steady(old(self), final(stack)@, old(stack)@),
            result is Ok && closes(old(self).setting(), old(self).place(), inst, is_first_visit)
                ==> ends_with_condition(final(self).current_ops()),
            forall|fuel: nat|
                result is Ok && #[trigger] old(self).turning(inst, is_first_visit, fuel)
                    ==> final(self).closed_since(old(self)),
            final(self).tracks(
                final(stack)@,
                result,
                inst_walk(
                    old(self).setting(),
                    old(self).walk(),
                    old(self).place(),
                    depgraph@,
                    schedule@,
                    node,
                    inst,
                    is_first_visit,
                    old(stack)@,
                ),
            ),
        decreases old(self).level(is_first_visit), 1int, 4 * node.rank() + 1,
    {
        if (inst as usize) >= self.f.insts.len() {
            proof {
                lemma_extends_refl(self.f_prime);
            }
            return Err(StackifyError::MalformedFunction);
        }
        match self.emit_dependencies(node, schedule, depgraph, treegraph, stack, is_first_visit) {
            Ok(_) => {},
            Err(e) => {
                return Err(e);
            },
        }
        let ghost mid = *self;
        let ghost stack_mid = stack@;
        let result = self.emit_terminator_or_op(inst, stack, is_first_visit);
        proof {
            lemma_extends_trans(self.f_prime, mid.f_prime, old(self).f_prime);
            if result is Ok {
                self.lemma_steady_trans(&mid, old(self), stack@, stack_mid, old(stack)@);
            }
            if result is Ok {
                assert forall|fuel: nat| #[trigger]
                    old(self).turning(inst, is_first_visit, fuel) implies self.closed_since(
                    old(self),
                ) by {
                    mid.lemma_turning_grows(old(self), inst, is_first_visit, fuel);
                    lemma_framed_kept(
                        self.walk().blocks,
                        self.walk().blocks,
                        old(self).current_block as int,
                        mid.walk().blocks.len() as int,
                        old(self).walk().blocks.len() as int,
                    );
                }
            }
        }
        result
    }

    /// Lowers what `node` depends on, the last dependency first, so that
    /// each comes to lie on the stack above those after it.
    fn emit_dependencies(
        &mut self,
        node: Node,
        schedule: &Vec<Node>,
        depgraph: &DependencyGraph,
        treegraph: &TreeGraph,
        stack: &mut OperandStack,
        is_first_visit: bool,
    ) -> (result: Result<(), StackifyError>)
        requires
            old(self).inv(),
            old(self).emitting is Some,
            Self::ready(schedule@, depgraph@, treegraph@),
            depgraph@.nodes.contains(node),
        ensures
            final(self).inv(),
            final(self).follows(old(self)),
            result is Ok ==> final(self).kept_but(old(self), old(self).current_block),
            result is Ok ==> final(self).steady(old(self), final(stack)@, old(stack)@),
            final(self).tracks(
                final(stack)@,
                result,
                dependencies_walk(
                    old(self).setting(),
                    old(self).walk(),
                    old(self).place(),
                    depgraph@,
                    schedule@,
                    node,
                    is_first_visit,
                    depgraph@.dependencies(node).len() as int,
                    old(stack)@,
                ),
            ),
        decreases old(self).level(is_first_visit), 1int, 4 * node.rank(),
    {
        let dependencies = dependencies_of(depgraph, &node);
        let n = node_buffer_len(&dependencies);
        let mut k: usize = n;
        proof {
            lemma_extends_refl(self.f_prime);
            self.lemma_steady_same(stack@);
        }
        while k > 0
            invariant
                k <= n,
                n == collected(dependencies).len(),
                collected(dependencies) == depgraph@.dependencies(node),
                self.inv(),
                self.emitting is Some,
                self.follows(old(self)),
                self.kept_but(old(self), old(self).current_block),
                (old(self).current_block as int) < old(self).f_prime.blocks@.len(),
                Self::ready(schedule@, depgraph@, treegraph@),
                self.steady(
                    old(self),
                    stack@,
                    old(stack)@,
                ),
                dependencies_walk(
                    self.setting(),
                    self.walk(),
                    self.place(),
                    depgraph@,
                    schedule@,
                    node,
                    is_first_visit,
                    k as int,
                    stack@,
                ) == dependencies_walk(
                    old(self).setting(),
                    old(self).walk(),
                    old(self).place(),
                    depgraph@,
                    schedule@,
                    node,
                    is_first_visit,
                    n as int,
                    old(stack)@,
                ),
            decreases k,
        {
            k = k - 1;
            let dependency = node_buffer_get(&dependencies, k);
            proof {
                lemma_dependencies_rank(depgraph@, node, 0, k as int);
            }
            let ghost before = *self;
            let ghost stack_before = stack@;
            match self.emit_node(
                dependency,
                schedule,
                depgraph,
                treegraph,
                stack,
                0,
                is_first_visit,
                Some(node),
            ) {
                Ok(_) => {},
                Err(e) => {
                    proof {
                        lemma_extends_trans(self.f_prime, before.f_prime, old(self).f_prime);
                    }
                    return Err(e);
                },
            }
            proof {
                lemma_extends_trans(self.f_prime, before.f_prime, old(self).f_prime);
                self.lemma_steady_trans(&before, old(self), stack@, stack_before, old(stack)@);
            }
        }
        Ok(())
    }

    /// Lowers the instruction `inst` itself: a terminator by its kind, any
    /// other instruction as a computation.
    fn emit_terminator_or_op(
        &mut self,
        inst: Inst,
        stack: &mut OperandStack,
        is_first_visit: bool,
    ) -> (result: Result<(), StackifyError>)
        requires
            old(self).inv(),
            old(self).emitting is Some,
            (inst as int) < old(self).f.insts@.len(),
        ensures
            final(self).inv(),
            final(self).follows(old(self)),
            result is Ok ==> final(self).kept_but(old(self), old(self).current_block),
            result is Ok ==> final(self).steady(old(self), final(stack)@, old(stack)@),
            result is Ok && closes(old(self).setting(), old(self).place(), inst, is_first_visit)
                ==> ends_with_condition(final(self).current_ops()),
            forall|fuel: nat|
                result is Ok && #[trigger] old(self).turning(inst, is_first_visit, fuel)
                    ==> final(self).closed_since(old(self)),
            final(self).tracks(
                final(stack)@,
                result,
                terminator_walk(
                    old(self).setting(),
                    old(self).walk(),
                    old(self).place(),
                    inst,
                    is_first_visit,
                    old(stack)@,
                ),
            ),
        decreases old(self).level(is_first_visit), 0int, 3int,
    {
        let f = self.f;
        let data = f.inst(inst);
        assert(f.inst_wf(inst as int));
        let result = match &data.ix {
            Instruction::RetImm(_) | Instruction::Ret => self.emit_returns(inst, stack),
            Instruction::Br { destination, args } => {
                assert(data.ix.destinations()[0] == *destination);
                if is_first_visit {
                    self.emit_branch(inst, *destination, args.as_slice(), stack)
                } else {
                    self.retrace_branch(inst, stack)
                }
            },
            Instruction::CondBr { then_dest, then_args, else_dest, else_args } => {
                assert(data.ix.destinations()[0] == *then_dest);
                assert(data.ix.destinations()[1] == *else_dest);
                if is_first_visit {
                    self.emit_conditional(
                        inst,
                        *then_dest,
                        then_args.as_slice(),
                        *else_dest,
                        else_args.as_slice(),
                        stack,
                    )
                } else {
                    self.retrace_branch(inst, stack)
                }
            },
            Instruction::Switch { .. } => {
                proof {
                    lemma_extends_refl(self.f_prime);
                }
                Err(StackifyError::UnexpectedSwitch)
            },
            _ => self.emit_op(inst, stack),
        };
        proof {
            if result is Ok {
                assert forall|fuel: nat| #[trigger]
                    old(self).turning(inst, is_first_visit, fuel) implies self.closed_since(
                    old(self),
                ) by {
                    reveal(turns);
                    reveal(loops_on);
                    if closes(old(self).setting(), old(self).place(), inst, is_first_visit) {
                        self.lemma_closed_by_push(old(self));
                    } else {
                        match data.ix {
                            Instruction::Br { destination, .. } => {
                                assert(old(self).looping_on(destination, (fuel - 1) as nat));
                            },
                            Instruction::CondBr { then_dest, else_dest, .. } => {
                                assert(old(self).looping_on(then_dest, (fuel - 1) as nat));
                                assert(old(self).looping_on(else_dest, (fuel - 1) as nat));
                            },
                            _ => {},
                        }
                    }
                }
            }
        }
        result
    }

    /// Lowers the return `inst`: the stack is cleared of all but what is
    /// returned, and every loop around the block is left.
    fn emit_returns(&mut self, inst: Inst, stack: &mut OperandStack) -> (result: Result<
        (),
        StackifyError,
    >)
        requires
            old(self).inv(),
            old(self).emitting is Some,
            (inst as int) < old(self).f.insts@.len(),
            old(self).f.insts@[inst as int].ix is Ret || old(self).f.insts@[inst as int].ix is RetImm,
        ensures
            final(self).inv(),
            final(self).follows(old(self)),
            final(self).steady(old(self), final(stack)@, old(stack)@),
            result is Ok && controlling_level(old(self).setting(), old(self).place()) >= 1
                ==> ends_with_condition(final(self).current_ops()),
            final(self).tracks(
                final(stack)@,
                result,
                return_step(
                    old(self).setting(),
                    old(self).walk(),
                    old(self).place(),
                    inst,
                    old(stack)@,
                ),
            ),
    {
        proof {
            lemma_extends_refl(self.f_prime);
            self.lemma_steady_same(stack@);
        }
        let f = self.f;
        let data = f.inst(inst);
        let level = self.controlling_loop_level();
        let ghost before = self.f_prime;
        let ghost depth = stack@.len();
        let at = self.current_block as usize;
        match &data.ix {
            Instruction::RetImm(arg) => {
                let block = &mut self.f_prime.blocks[at];
                let result = emit_return_imm(*arg, level, stack, block);
                proof {
                    lemma_extends_block(self.f_prime, before, at as int);
                    if result is Ok {
                        self.lemma_written(
                            old(self),
                            self.current_block,
                            crate::lowering::return_imm_ops(*arg, level as nat, depth),
                        );
                    }
                }
                result
            },
            _ => {
                if data.args.len() != 1 {
                    return Err(StackifyError::UnsupportedReturn);
                }
                let block = &mut self.f_prime.blocks[at];
                let result = emit_return(data.args[0], level, stack, block);
                proof {
                    lemma_extends_block(self.f_prime, before, at as int);
                    if result is Ok {
                        self.lemma_written(
                            old(self),
                            self.current_block,
                            crate::lowering::return_ops(level as nat, depth),
                        );
                    }
                }
                result
            },
        }
    }

    /// Lowers the branch `inst` of a loop header that is retraced.
    fn retrace_branch(&mut self, inst: Inst, stack: &mut OperandStack) -> (result: Result<
        (),
        StackifyError,
    >)
        requires
            old(self).inv(),
            old(self).emitting is Some,
            (inst as int) < old(self).f.insts@.len(),
            old(self).f.insts@[inst as int].ix is Br || old(self).f.insts@[inst as int].ix is CondBr,
        ensures
            final(self).inv(),
            final(self).follows(old(self)),
            result is Ok ==> final(self).steady(old(self), final(stack)@, old(stack)@),
            result is Ok ==> ends_with_condition(final(self).current_ops()),
            final(self).tracks(
                final(stack)@,
                result,
                retrace_step(
                    old(self).setting(),
                    old(self).walk(),
                    old(self).place(),
                    inst,
                    old(stack)@,
                ),
            ),
    {
        proof {
            lemma_extends_refl(self.f_prime);
        }
        let f = self.f;
        let data = f.inst(inst);
        let emitting = self.emitting.unwrap();
        if self.loops.is_loop_header(emitting).is_none() {
            return Err(StackifyError::UnexpectedCycle);
        }
        match &data.ix {
            Instruction::Br { destination, args } => {
                let at = self.current_block;
                match self.prepare_branch(inst, *destination, args.as_slice(), at, stack) {
                    Ok(_) => {},
                    Err(e) => {
                        return Err(e);
                    },
                }
                let ghost prepared = *self;
                let ghost ready = stack@;
                let result = self.continue_loop(emitting, stack);
                proof {
                    lemma_extends_trans(self.f_prime, prepared.f_prime, old(self).f_prime);
                    self.lemma_steady_trans(&prepared, old(self), stack@, ready, old(stack)@);
                }
                result
            },
            _ => self.continue_loop(emitting, stack),
        }
    }

    /// Lowers the unconditional branch `inst` to a block that is entered
    /// for the first time: the arguments are made ready, and the destination
    /// is lowered, in the body of a loop if the block heads one, else behind
    /// what is written.
    fn emit_branch(
        &mut self,
        inst: Inst,
        destination: Block,
        args: &[Value],
        stack: &mut OperandStack,
    ) -> (result: Result<(), StackifyError>)
        requires
            old(self).inv(),
            old(self).emitting is Some,
            (destination as int) < old(self).f.blocks@.len(),
        ensures
            final(self).inv(),
            final(self).follows(old(self)),
            result is Ok ==> final(self).kept_but(old(self), old(self).current_block),
            result is Ok ==> final(self).steady(old(self), final(stack)@, old(stack)@),
            forall|fuel: nat|
                result is Ok && #[trigger] old(self).looping_on(destination, fuel)
                    ==> final(self).closed_since(old(self)),
            final(self).tracks(
                final(stack)@,
                result,
                br_walk(
                    old(self).setting(),
                    old(self).walk(),
                    old(self).place(),
                    inst,
                    destination,
                    args@,
                    old(stack)@,
                ),
            ),
        decreases old(self).level(true), 0int, 2int,
    {
        let at = self.current_block;
        match self.prepare_branch(inst, destination, args, at, stack) {
            Ok(_) => {},
            Err(e) => {
                return Err(e);
            },
        }
        let ghost prepared = *self;
        let ghost ready = stack@;
        let result = match self.branch_on(destination, stack) {
            Ok(end) => {
                *stack = end;
                Ok(())
            },
            Err(e) => Err(e),
        };
        proof {
            lemma_extends_trans(self.f_prime, prepared.f_prime, old(self).f_prime);
            if result is Ok {
                self.lemma_steady_trans(&prepared, old(self), stack@, ready, old(stack)@);
            }
            if result is Ok {
                assert(prepared.walk().blocks.len() == old(self).walk().blocks.len());
                assert forall|fuel: nat| #[trigger]
                    old(self).looping_on(destination, fuel) implies self.closed_since(
                    old(self),
                ) by {
                    prepared.lemma_looping_grows(old(self), destination, fuel);
                }
            }
        }
        result
    }

    /// Goes on from a branch to `destination` whose arguments are ready on
    /// `stack`: the destination is lowered with a stack of its own, in the
    /// body of a loop if the block that is lowered heads one, else behind
    /// what is written. Hands back the stack that the block that is written
    /// ends with: `stack` as it is where a loop was opened, else the stack
    /// that the destination ends with.
    fn branch_on(&mut self, destination: Block, stack: &OperandStack) -> (result: Result<
        OperandStack,
        StackifyError,
    >)
        requires
            old(self).inv(),
            old(self).emitting is Some,
            (destination as int) < old(self).f.blocks@.len(),
        ensures
            final(self).inv(),
            final(self).follows(old(self)),
            result is Ok ==> final(self).kept_but(old(self), old(self).current_block),
            result is Ok ==> final(self).steady(old(self), result->Ok_0@, stack@),
            forall|fuel: nat|
                result is Ok && #[trigger] old(self).looping_on(destination, fuel)
                    ==> final(self).closed_since(old(self)),
            match branch_walk(
                old(self).setting(),
                old(self).walk(),
                old(self).place(),
                destination,
                stack@,
            ) {
                Ok((walk, end)) => result is Ok && final(self).walk() == walk && result->Ok_0@
                    == end,
                Err(e) => result is Err && result->Err_0 == e,
            },
        decreases old(self).level(true), 0int, 1int,
    {
        let emitting = self.emitting.unwrap();
        if self.loops.is_loop_header(emitting).is_some() {
            let body = match self.open_loop() {
                Ok(body) => body,
                Err(e) => {
                    return Err(e);
                },
            };
            let ghost opened = *self;
            let result = match self.emit(destination, body, stack.clone()) {
                Ok(_) => Ok(stack.clone()),
                Err(e) => Err(e),
            };
            proof {
                lemma_extends_trans(self.f_prime, opened.f_prime, old(self).f_prime);
                if result is Ok {
                    self.lemma_steady_kept(&opened, old(self), 0, body);
                    self.lemma_kept_blocks(&opened, body);
                    let at = old(self).current_block as int;
                    assert(self.walk().blocks[at] == opened.walk().blocks[at]);
                    assert(opened.walk().blocks[at].last() == Op::While(body));
                    assert(body == old(self).walk().blocks.len());
                    assert forall|fuel: nat| #[trigger]
                        old(self).looping_on(destination, fuel) implies self.closed_since(
                        old(self),
                    ) by {
                        opened.lemma_looping_grows(old(self), destination, fuel);
                        lemma_framed_kept(
                            self.walk().blocks,
                            self.walk().blocks,
                            body as int,
                            opened.walk().blocks.len() as int,
                            old(self).walk().blocks.len() as int,
                        );
                        lemma_framed_loop(
                            self.walk().blocks,
                            at,
                            body,
                            old(self).walk().blocks.len() as int,
                        );
                    }
                }
            }
            result
        } else {
            self.emit(destination, self.current_block, stack.clone())
        }
    }

    /// Lowers the conditional branch `inst` whose arms are entered for the
    /// first time: the fork is written, and each arm is lowered in a block
    /// of its own, with a stack of its own, which is the stack without the
    /// condition. The condition leaves `stack` where the fork is written to
    /// the block itself; where the block heads a loop the fork is written to
    /// the body of the loop, and the block ends with the condition on the
    /// stack.
    fn emit_conditional(
        &mut self,
        inst: Inst,
        then_dest: Block,
        then_args: &[Value],
        else_dest: Block,
        else_args: &[Value],
        stack: &mut OperandStack,
    ) -> (result: Result<(), StackifyError>)
        requires
            old(self).inv(),
            old(self).emitting is Some,
            (then_dest as int) < old(self).f.blocks@.len(),
            (else_dest as int) < old(self).f.blocks@.len(),
        ensures
            final(self).inv(),
            final(self).follows(old(self)),
            result is Ok ==> final(self).kept_but(old(self), old(self).current_block),
            result is Ok ==> final(self).steady(old(self), final(stack)@, old(stack)@),
            forall|fuel: nat|
                result is Ok && #[trigger] old(self).looping_on(then_dest, fuel)
                    && old(self).looping_on(else_dest, fuel) ==> final(self).closed_since(old(self)),
            final(self).tracks(
                final(stack)@,
                result,
                cond_br_walk(
                    old(self).setting(),
                    old(self).walk(),
                    old(self).place(),
                    inst,
                    then_dest,
                    then_args@,
                    else_dest,
                    else_args@,
                    old(stack)@,
                ),
            ),
        decreases old(self).level(true), 0int, 2int,
    {
        let emitting = self.emitting.unwrap();
        if stack.is_empty() {
            proof {
                lemma_extends_refl(self.f_prime);
            }
            return Err(StackifyError::UnexpectedStackState);
        }
        let is_header = self.loops.is_loop_header(emitting).is_some();
        let (then_blk, else_blk) = match self.open_conditional(is_header) {
            Ok(arms) => arms,
            Err(e) => {
                return Err(e);
            },
        };
        let ghost opened = *self;
        // The conditional takes the condition off the stack. Where it was
        // written to the body of a loop, the block that is written ends
        // with the condition still there.
        let mut rest = stack.clone();
        rest.pop();
        if !is_header {
            stack.pop();
        }
        match self.emit_arm(inst, then_dest, then_args, then_blk, &rest) {
            Ok(_) => {},
            Err(e) => {
                proof {
                    lemma_extends_trans(self.f_prime, opened.f_prime, old(self).f_prime);
                }
                return Err(e);
            },
        }
        proof {
            lemma_extends_trans(self.f_prime, opened.f_prime, old(self).f_prime);
        }
        let ghost taken = *self;
        let result = self.emit_arm(inst, else_dest, else_args, else_blk, &rest);
        proof {
            lemma_extends_trans(self.f_prime, taken.f_prime, old(self).f_prime);
            if result is Ok {
                taken.lemma_kept_blocks(&opened, then_blk);
                self.lemma_kept_blocks(&taken, else_blk);
                assert forall|fuel: nat| #[trigger]
                    old(self).looping_on(then_dest, fuel) && old(self).looping_on(
                        else_dest,
                        fuel,
                    ) implies self.closed_since(old(self)) by {
                    opened.lemma_looping_grows(old(self), then_dest, fuel);
                    taken.lemma_looping_grows(old(self), else_dest, fuel);
                    lemma_framed_kept(
                        taken.walk().blocks,
                        self.walk().blocks,
                        then_blk as int,
                        opened.walk().blocks.len() as int,
                        old(self).walk().blocks.len() as int,
                    );
                    lemma_framed_kept(
                        self.walk().blocks,
                        self.walk().blocks,
                        else_blk as int,
                        taken.walk().blocks.len() as int,
                        old(self).walk().blocks.len() as int,
                    );
                    self.lemma_forked(old(self), &opened, is_header, then_blk, else_blk);
                }
            }
        }
        result
    }

    /// Lowers one arm of a conditional: a copy of the stack is made ready in
    /// the block of the arm, and the destination is lowered there.
    fn emit_arm(
        &mut self,
        inst: Inst,
        destination: Block,
        args: &[Value],
        arm: BlockId,
        stack: &OperandStack,
    ) -> (result: Result<(), StackifyError>)
        requires
            old(self).inv(),
            old(self).emitting is Some,
            (destination as int) < old(self).f.blocks@.len(),
            (arm as int) < old(self).f_prime.blocks@.len(),
        ensures
            final(self).inv(),
            final(self).follows(old(self)),
            result is Ok ==> final(self).kept_but(old(self), arm),
            forall|fuel: nat|
                result is Ok && #[trigger] old(self).looping_on(destination, fuel) ==> framed(
                    final(self).walk().blocks,
                    arm as int,
                    old(self).walk().blocks.len() as int,
                ),
            match arm_walk(
                old(self).setting(),
                old(self).walk(),
                old(self).place(),
                inst,
                destination,
                args@,
                arm,
                stack@,
            ) {
                Ok(walk) => result is Ok && final(self).walk() == walk,
                Err(e) => result == Err::<(), StackifyError>(e),
            },
        decreases old(self).level(true), 0int, 1int,
    {
        let mut ready = stack.clone();
        match self.prepare_branch(inst, destination, args, arm, &mut ready) {
            Ok(_) => {},
            Err(e) => {
                return Err(e);
            },
        }
        let ghost prepared = *self;
        let result = match self.emit(destination, arm, ready) {
            Ok(_) => Ok(()),
            Err(e) => Err(e),
        };
        proof {
            lemma_extends_trans(self.f_prime, prepared.f_prime, old(self).f_prime);
        }
        result
    }

    /// Gets the stack ready for the branch of `inst` to `destination` with
    /// the arguments `args`, writing to the block `at`: what the destination
    /// does not need is discarded, the arguments are put on top.
    fn prepare_branch(
        &mut self,
        inst: Inst,
        destination: Block,
        args: &[Value],
        at: BlockId,
        stack: &mut OperandStack,
    ) -> (result: Result<(), StackifyError>)
        requires
            old(self).inv(),
            (at as int) < old(self).f_prime.blocks@.len(),
        ensures
            final(self).inv(),
            final(self).follows(old(self)),
            result is Ok ==> final(self).kept_but(old(self), at),
            result is Ok && at == old(self).current_block ==> final(self).steady(
                old(self),
                final(stack)@,
                old(stack)@,
            ),
            final(self).tracks(
                final(stack)@,
                result,
                prepare_branch_step(
                    old(self).setting(),
                    old(self).walk(),
                    inst,
                    destination,
                    args@,
                    at,
                    old(stack)@,
                ),
            ),
    {
        let ghost before = self.f_prime;
        let liveness = self.liveness;
        let block = &mut self.f_prime.blocks[at as usize];
        let ghost was = block@;
        let dropped = drop_unused_operands_at(
            ProgramPoint::Block(destination),
            args,
            stack,
            block,
            liveness,
        );
        let ghost mid = block@;
        let result = match dropped {
            Ok(_) => prepare_stack_arguments(inst, args, stack, block, liveness),
            Err(e) => Err(e),
        };
        proof {
            lemma_grows_same(mid);
            lemma_grows_trans(self.f_prime.blocks@[at as int]@, mid, was);
            lemma_extends_block(self.f_prime, before, at as int);
            if result is Ok {
                let pp = ProgramPoint::Block(destination);
                let fused = crate::clearing::fuse_drops(
                    crate::clearing::drop_plan(old(stack)@, 0, 0, args@, liveness, pp),
                    0,
                );
                let cleared = crate::clearing::retain_from(old(stack)@, 0, args@, liveness, pp);
                let ops = crate::arguments::prepare_ops(cleared, args@, liveness, inst);
                assert(self.f_prime.blocks@[at as int]@ =~= was + (fused + ops));
                self.lemma_written(old(self), at, fused + ops);
                lemma_write_twice(old(self).walk(), at, fused, ops);
                lemma_write_twice(old(self).walk().write(at, fused), at, ops, ops);
            }
        }
        result
    }

    /// Opens a loop in the block that is written: a push of the true loop
    /// condition and the loop over a new block, which is handed back.
    fn open_loop(&mut self) -> (result: Result<BlockId, StackifyError>)
        requires
            old(self).inv(),
        ensures
            final(self).inv(),
            final(self).follows(old(self)),
            result is Ok ==> final(self).steady_by(old(self), 0),
            result matches Ok(body) ==> (body as int) < final(self).f_prime.blocks@.len(),
            match open_loop_step(old(self).walk(), old(self).current_block) {
                Ok((walk, body)) => result == Ok::<BlockId, StackifyError>(body)
                    && final(self).walk() == walk,
                Err(e) => result == Err::<BlockId, StackifyError>(e),
            },
    {
        if self.f_prime.blocks.len() >= u32::MAX as usize {
            proof {
                lemma_extends_refl(self.f_prime);
            }
            return Err(StackifyError::LimitExceeded);
        }
        let ghost before = self.f_prime;
        let body = self.f_prime.create_block();
        self.f_prime.push_op(self.current_block, Op::Push(Felt::one()));
        self.f_prime.push_op(self.current_block, Op::While(body));
        proof {
            let at = self.current_block as int;
            assert forall|j: int| 0 <= j < before.blocks@.len() implies begins_with(
                (#[trigger] self.f_prime.blocks@[j])@,
                before.blocks@[j]@,
            ) by {
                if j == at {
                    assert(self.f_prime.blocks@[j]@ =~= before.blocks@[j]@ + seq![
                        Op::Push(Felt::of(1)),
                        Op::While(body),
                    ]);
                    lemma_begins_with_more(
                        before.blocks@[j]@,
                        seq![Op::Push(Felt::of(1)), Op::While(body)],
                    );
                } else {
                    lemma_begins_with_more(before.blocks@[j]@, Seq::empty());
                    assert(self.f_prime.blocks@[j]@ =~= before.blocks@[j]@ + Seq::<Op>::empty());
                }
            }
            let expected = old(self).walk().create().write(
                self.current_block,
                seq![Op::Push(Felt::of(1))],
            ).write(self.current_block, seq![Op::While(body)]);
            assert forall|j: int| 0 <= j < expected.blocks.len() implies self.walk().blocks[j]
                == #[trigger] expected.blocks[j] by {
                if j == at {
                    assert(self.f_prime.blocks@[j]@ =~= (before.blocks@[j]@ + seq![
                        Op::Push(Felt::of(1)),
                    ]) + seq![Op::While(body)]);
                }
            }
            assert(self.walk().blocks =~= expected.blocks);
            assert(self.walk().entered =~= expected.entered);
            let wrote = seq![Op::Push(Felt::of(1)), Op::While(body)];
            assert(self.f_prime.blocks@[at]@ =~= before.blocks@[at]@ + wrote);
            lemma_begins_with_more(before.blocks@[at]@, wrote);
            assert(written(self.f_prime.blocks@[at]@, before.blocks@[at]@) =~= wrote);
            lemma_net_effect_few(wrote[0], wrote[1]);
        }
        Ok(body)
    }

    /// Opens a conditional: two new blocks for its arms, which are handed
    /// back, and the fork between them. The fork is written to the block
    /// that is written, or, where that block heads a loop, to the body of a
    /// loop that is opened first.
    fn open_conditional(&mut self, in_loop: bool) -> (result: Result<
        (BlockId, BlockId),
        StackifyError,
    >)
        requires
            old(self).inv(),
        ensures
            final(self).inv(),
            final(self).follows(old(self)),
            result is Ok ==> final(self).kept_but(old(self), old(self).current_block),
            result is Ok && !in_loop ==> final(self).steady_by(old(self), -1),
            result is Ok && in_loop ==> final(self).steady_by(old(self), 0),
            result matches Ok(arms) ==> (arms.0 as int) < final(self).f_prime.blocks@.len() && (
            arms.1 as int) < final(self).f_prime.blocks@.len(),
            match open_conditional_step(old(self).walk(), old(self).current_block, in_loop) {
                Ok((walk, then_blk, else_blk)) => result == Ok::<(BlockId, BlockId), StackifyError>(
                    (then_blk, else_blk),
                ) && final(self).walk() == walk,
                Err(e) => result == Err::<(BlockId, BlockId), StackifyError>(e),
            },
    {
        proof {
            lemma_extends_refl(self.f_prime);
        }
        if self.f_prime.blocks.len() >= (u32::MAX - 2) as usize {
            return Err(StackifyError::LimitExceeded);
        }
        let ghost before = self.f_prime;
        let then_blk = self.f_prime.create_block();
        let else_blk = self.f_prime.create_block();
        let ghost created = self.f_prime;
        let ghost created_walk = self.walk();
        proof {
            assert(created_walk.blocks =~= old(self).walk().create().create().blocks);
            assert(created_walk.entered =~= old(self).walk().entered);
            assert forall|j: int| 0 <= j < before.blocks@.len() implies begins_with(
                (#[trigger] created.blocks@[j])@,
                before.blocks@[j]@,
            ) by {
                lemma_begins_with_more(before.blocks@[j]@, Seq::empty());
            }
            assert(extends(created, before));
        }
        let target = if in_loop {
            let body = match self.open_loop() {
                Ok(body) => body,
                Err(e) => {
                    proof {
                        lemma_extends_trans(self.f_prime, created, before);
                    }
                    return Err(e);
                },
            };
            proof {
                lemma_extends_trans(self.f_prime, created, before);
            }
            body
        } else {
            self.current_block
        };
        let ghost opened = self.f_prime;
        let ghost opened_walk = self.walk();
        self.f_prime.push_op(target, Op::If(then_blk, else_blk));
        proof {
            let expected = opened_walk.write(target, seq![Op::If(then_blk, else_blk)]);
            assert forall|j: int| 0 <= j < expected.blocks.len() implies self.walk().blocks[j]
                == #[trigger] expected.blocks[j] by {
                if j == target {
                    assert(self.f_prime.blocks@[j]@ =~= opened.blocks@[j]@ + seq![
                        Op::If(then_blk, else_blk),
                    ]);
                }
            }
            assert(self.walk().blocks =~= expected.blocks);
            assert(self.walk().entered =~= opened_walk.entered);
            if !in_loop {
                let fork = seq![Op::If(then_blk, else_blk)];
                let was = old(self).f_prime.blocks@[target as int]@;
                assert(self.f_prime.blocks@[target as int]@ =~= was + fork);
                lemma_begins_with_more(was, fork);
                assert(written(self.f_prime.blocks@[target as int]@, was) =~= fork);
                lemma_net_effect_few(fork[0], fork[0]);
            }
            lemma_begins_with_more(opened.blocks@[target as int]@, seq![Op::If(then_blk, else_blk)]);
            assert(opened.blocks@[target as int]@.push(Op::If(then_blk, else_blk))
                =~= opened.blocks@[target as int]@ + seq![Op::If(then_blk, else_blk)]);
            assert forall|j: int| 0 <= j < opened.blocks@.len() implies begins_with(
                (#[trigger] self.f_prime.blocks@[j])@,
                opened.blocks@[j]@,
            ) by {
                if j != target {
                    lemma_begins_with_more(opened.blocks@[j]@, Seq::empty());
                }
            }
            lemma_extends_trans(self.f_prime, opened, before);
        }
        Ok((then_blk, else_blk))
    }

    /// Continues the loop that `header` heads from where the controlling
    /// block stands, leaving the loops in between.
    fn continue_loop(&mut self, header: Block, stack: &mut OperandStack) -> (result: Result<
        (),
        StackifyError,
    >)
        requires
            old(self).inv(),
            old(self).emitting is Some,
        ensures
            final(self).inv(),
            final(self).follows(old(self)),
            final(self).steady(old(self), final(stack)@, old(stack)@),
            result is Ok ==> ends_with_condition(final(self).current_ops()),
            final(self).tracks(
                final(stack)@,
                result,
                continue_loop_step(
                    old(self).setting(),
                    old(self).walk(),
                    old(self).place(),
                    header,
                    old(stack)@,
                ),
            ),
    {
        let controlling = match self.controlling {
            Some(controlling) => controlling,
            None => {
                proof {
                    lemma_extends_refl(self.f_prime);
                }
                return Err(StackifyError::UnexpectedCycle);
            },
        };
        let current_level = self.loops.loop_level(controlling);
        let target_level = self.loops.loop_level(header);
        let ghost before = self.f_prime;
        let at = self.current_block as usize;
        let block = &mut self.f_prime.blocks[at];
        let result = emit_loopback(current_level, target_level, stack, block);
        proof {
            lemma_extends_block(self.f_prime, before, at as int);
            if result is Ok {
                self.lemma_written(
                    old(self),
                    self.current_block,
                    crate::lowering::loopback_ops((current_level - target_level) as nat),
                );
            }
        }
        result
    }

    /// Lowers the computation `inst`, whose operands are on top of the
    /// stack.
    fn emit_op(&mut self, inst: Inst, stack: &mut OperandStack) -> (result: Result<
        (),
        StackifyError,
    >)
        requires
            old(self).inv(),
            old(self).emitting is Some,
            (inst as int) < old(self).f.insts@.len(),
        ensures
            final(self).inv(),
            final(self).follows(old(self)),
            final(self).steady(old(self), final(stack)@, old(stack)@),
            final(self).tracks(
                final(stack)@,
                result,
                op_step(old(self).setting(), old(self).walk(), old(self).place(), inst, old(stack)@),
            ),
    {
        proof {
            lemma_extends_refl(self.f_prime);
        }
        let f = self.f;
        let data = f.inst(inst);
        let flexible = data.ix.is_binary() && data.ix.is_commutative();
        assert(f.inst_wf(inst as int));
        let (global, addr) = match &data.ix {
            Instruction::GlobalValue(gv) => {
                let addr = match calculate_global_value_addr(self.program, f, *gv) {
                    Ok(addr) => addr,
                    Err(e) => {
                        return Err(e);
                    },
                };
                (Some(f.global_value(*gv)), addr)
            },
            _ => (None, 0),
        };
        let ops = match lower_computation(&data.ix, global, addr, data.args.len(), data.results.len()) {
            Ok(ops) => ops,
            Err(e) => {
                return Err(e);
            },
        };
        let ghost before = self.f_prime;
        let at = self.current_block as usize;
        let block = &mut self.f_prime.blocks[at];
        let ghost was = block@;
        let duplicated = duplicate_repeated_operands(data.args.as_slice(), flexible, stack, block);
        let ghost mid = block@;
        let result = match duplicated {
            Ok(_) => apply_computation(
                &ops,
                data.args.as_slice(),
                flexible,
                data.results.as_slice(),
                stack,
                block,
            ),
            Err(e) => Err(e),
        };
        proof {
            crate::lowering::lemma_op_lowering(
                data.ix,
                global,
                addr,
                data.args@.len(),
                data.results@.len(),
            );
            lemma_grows_same(mid);
            lemma_grows_trans(self.f_prime.blocks@[at as int]@, mid, was);
            lemma_extends_block(self.f_prime, before, at as int);
            if result is Ok {
                let copies = crate::lowering::repeat_ops(
                    old(stack)@,
                    data.args@,
                    0,
                    flexible,
                );
                assert(self.f_prime.blocks@[at as int]@ =~= was + (copies + ops@));
                self.lemma_written(old(self), self.current_block, copies + ops@);
                lemma_write_twice(old(self).walk(), self.current_block, copies, ops@);
            }
        }
        result
    }
}

} // verus!
