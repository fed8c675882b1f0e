//! How single instructions become operations of the stack machine, once their
//! operands are on top of the operand stack: constants, returns, the
//! continuation of loops, and the families of computations.

use vstd::prelude::*;
use crate::error::StackifyError;
use crate::hir::{GlobalValueData, Immediate, Instruction, Value};
use crate::masm::{
    self, grows, lemma_grows_more, lemma_grows_same, lemma_net_effect_few,
    lemma_net_effect_push, lemma_net_effect_repeat, net_effect, straight, Felt, Op, Opcode,
    MAX_OPERAND_INDEX,
};
use crate::operand_stack::{
    all_applicable, apply_all, balanced, first_named, lemma_apply_all_concat,
    lemma_balanced_trans, lemma_wrote, lemma_wrote_manipulations, Entry, Operand, OperandStack,
};
use crate::primitives::{copy_operand_to_position, copy_ops, truncate_ops, truncate_stack};
use crate::window::arranged;

verus! {

/// The operation that pushes `imm`, if there is one: booleans are pushed as
/// 8-bit constants, unsigned integers of up to 32 bits as 32-bit constants, a
/// 64-bit integer as its two 32-bit halves, the upper half on top, and a field
/// element as itself. Signed integers and floating-point numbers cannot be
/// pushed.
pub open spec fn push_op_of(imm: Immediate) -> Option<Op> {
    match imm {
        Immediate::I1(b) => Some(
            Op::PushU8(
                if b {
                    1
                } else {
                    0
                },
            ),
        ),
        Immediate::U8(i) => Some(Op::PushU32(i as u32)),
        Immediate::U16(i) => Some(Op::PushU32(i as u32)),
        Immediate::U32(i) => Some(Op::PushU32(i)),
        Immediate::U64(i) => Some(
            Op::Push2(Felt::of((i % 0x1_0000_0000) as u64), Felt::of((i / 0x1_0000_0000) as u64)),
        ),
        Immediate::Felt(f) => Some(Op::Push(f)),
        _ => None,
    }
}

/// The operation that pushes `imm`. Fails for signed integers and for
/// floating-point numbers.
pub fn immediate_to_push_op(imm: Immediate) -> (result: Result<Op, StackifyError>)
    ensures
        match push_op_of(imm) {
            Some(op) => result == Ok::<Op, StackifyError>(op),
            None => result == Err::<Op, StackifyError>(StackifyError::UnsupportedImmediate),
        },
{
    match imm {
        Immediate::I1(b) => Ok(
            Op::PushU8(
                if b {
                    1
                } else {
                    0
                },
            ),
        ),
        Immediate::U8(i) => Ok(Op::PushU32(i as u32)),
        Immediate::U16(i) => Ok(Op::PushU32(i as u32)),
        Immediate::U32(i) => Ok(Op::PushU32(i)),
        Immediate::U64(i) => {
            let lo: u64 = i % 0x1_0000_0000;
            let hi: u64 = i / 0x1_0000_0000;
            Ok(Op::Push2(Felt::new(lo), Felt::new(hi)))
        },
        Immediate::Felt(f) => Ok(Op::Push(f)),
        _ => Err(StackifyError::UnsupportedImmediate),
    }
}

/// The entries that the model of the stack gets for a pushed `imm`, top
/// first: one for each operand that the push leaves.
pub open spec fn pushed_entries(imm: Immediate) -> Seq<Entry> {
    match imm {
        Immediate::U64(i) => seq![
            Entry::plain(Operand::Const(Immediate::U32((i / 0x1_0000_0000) as u32))),
            Entry::plain(Operand::Const(Immediate::U32((i % 0x1_0000_0000) as u32))),
        ],
        _ => seq![Entry::plain(Operand::Const(imm))],
    }
}

/// Writes the push of `imm` and records what it leaves on the stack.
pub fn push_immediate(imm: Immediate, stack: &mut OperandStack, block: &mut masm::Block) -> (result:
    Result<(), StackifyError>)
    ensures
        match push_op_of(imm) {
            Some(op) => {
                &&& result is Ok
                &&& final(block)@ == old(block)@.push(op)
                &&& final(stack)@ == pushed_entries(imm) + old(stack)@
                &&& final(stack)@.len() == old(stack)@.len() + op.stack_effect()
            },
            None => {
                &&& result == Err::<(), StackifyError>(StackifyError::UnsupportedImmediate)
                &&& final(block)@ == old(block)@
                &&& final(stack)@ == old(stack)@
            },
        },
        balanced(final(block)@, old(block)@, final(stack)@, old(stack)@),
{
    proof {
        lemma_grows_same(old(block)@);
    }
    let op = match immediate_to_push_op(imm) {
        Ok(op) => op,
        Err(e) => {
            return Err(e);
        },
    };
    block.push(op);
    proof {
        lemma_net_effect_few(op, op);
        assert(block@ =~= old(block)@ + seq![op]);
        assert(pushed_entries(imm).len() == op.stack_effect());
        lemma_wrote(old(block)@, seq![op], pushed_entries(imm) + old(stack)@, old(stack)@);
    }
    match imm {
        Immediate::U64(i) => {
            let lo: u64 = i % 0x1_0000_0000;
            let hi: u64 = i / 0x1_0000_0000;
            stack.push(Operand::Const(Immediate::U32(lo as u32)));
            stack.push(Operand::Const(Immediate::U32(hi as u32)));
        },
        _ => {
            stack.push(Operand::Const(imm));
        },
    }
    assert(stack@ =~= pushed_entries(imm) + old(stack)@);
    Ok(())
}

/// `count` pushes of the false loop condition.
pub open spec fn exit_ops(count: nat) -> Seq<Op> {
    Seq::new(count, |i: int| Op::Push(Felt::of(0)))
}

/// The entries that the model of the stack gets for `count` pushes of the
/// false loop condition.
pub open spec fn exit_entries(count: nat) -> Seq<Entry> {
    Seq::new(count, |i: int| Entry::plain(Operand::Const(Immediate::I1(false))))
}

/// Leaves `level` enclosing loops: writes one push of the false loop
/// condition for each.
pub fn emit_loop_exits(level: usize, stack: &mut OperandStack, block: &mut masm::Block)
    ensures
        final(block)@ == old(block)@ + exit_ops(level as nat),
        final(stack)@ == exit_entries(level as nat) + old(stack)@,
        balanced(final(block)@, old(block)@, final(stack)@, old(stack)@),
        level > 0 ==> final(block)@.len() > 0 && final(block)@.last() == Op::Push(Felt::of(0)),
{
    block.push_n(Op::Push(Felt::zero()), level);
    stack.push_n(Operand::Const(Immediate::I1(false)), level);
    assert(block@ =~= old(block)@ + exit_ops(level as nat));
    assert(stack@ =~= exit_entries(level as nat) + old(stack)@);
    proof {
        lemma_net_effect_repeat(Op::Push(Felt::of(0)), level as nat);
        assert(level * 1 == level) by (nonlinear_arith);
        lemma_wrote(old(block)@, exit_ops(level as nat), stack@, old(stack)@);
    }
}

/// The operations for a return of the constant `imm` from `level` loops
/// deep, on a stack of `depth` operands: everything is discarded, the
/// constant pushed, and every loop left.
pub open spec fn return_imm_ops(imm: Immediate, level: nat, depth: nat) -> Seq<Op> {
    truncate_ops(depth).push(push_op_of(imm)->0) + exit_ops(level)
}

/// Lowers the return of a constant. Fails, with nothing written, if the
/// constant cannot be pushed.
pub fn emit_return_imm(
    imm: Immediate,
    level: usize,
    stack: &mut OperandStack,
    block: &mut masm::Block,
) -> (result: Result<(), StackifyError>)
    ensures
        match push_op_of(imm) {
            Some(op) => {
                &&& result is Ok
                &&& final(block)@ == old(block)@ + return_imm_ops(
                    imm,
                    level as nat,
                    old(stack)@.len(),
                )
                &&& final(stack)@ == exit_entries(level as nat) + pushed_entries(imm)
            },
            None => {
                &&& result == Err::<(), StackifyError>(StackifyError::UnsupportedImmediate)
                &&& final(block)@ == old(block)@
                &&& final(stack)@ == old(stack)@
            },
        },
        balanced(final(block)@, old(block)@, final(stack)@, old(stack)@),
        result is Ok && level > 0 ==> final(block)@.len() > 0 && final(block)@.last() == Op::Push(
            Felt::of(0),
        ),
{
    proof {
        lemma_grows_same(old(block)@);
    }
    if immediate_to_push_op(imm).is_err() {
        return Err(StackifyError::UnsupportedImmediate);
    }
    truncate_stack(0, stack, block);
    assert(stack@ =~= Seq::<Entry>::empty());
    assert(block@ =~= old(block)@ + truncate_ops(old(stack)@.len()));
    let ghost block1 = block@;
    let ghost stack1 = stack@;
    let _ = push_immediate(imm, stack, block);
    let ghost block2 = block@;
    let ghost stack2 = stack@;
    emit_loop_exits(level, stack, block);
    proof {
        lemma_balanced_trans(block2, block1, old(block)@, stack2, stack1, old(stack)@);
        lemma_balanced_trans(block@, block2, old(block)@, stack@, stack2, old(stack)@);
    }
    assert(stack@ =~= exit_entries(level as nat) + pushed_entries(imm));
    assert(block@ =~= old(block)@ + return_imm_ops(imm, level as nat, old(stack)@.len()));
    Ok(())
}

/// Why the value `arg` cannot be returned from a stack, if it cannot: the
/// value is not on top, or the bottom of the stack is out of reach.
pub open spec fn return_failure(stack: Seq<Entry>, arg: Value) -> Option<StackifyError> {
    if stack.len() == 0 || !stack[0].names(arg) {
        Some(StackifyError::UnexpectedStackState)
    } else if stack.len() - 1 > MAX_OPERAND_INDEX {
        Some(StackifyError::LimitExceeded)
    } else {
        None
    }
}

/// The operations for a return of the value on top of a stack of `depth`
/// operands from `level` loops deep: the value goes to the bottom of the
/// stack, all above it is discarded, and every loop is left.
pub open spec fn return_ops(level: nat, depth: nat) -> Seq<Op> {
    if depth > 1 {
        seq![Op::Swap((depth - 1) as u8)] + truncate_ops((depth - 1) as nat) + exit_ops(level)
    } else {
        exit_ops(level)
    }
}

/// Lowers the return of the value `arg`, which has to be on top of the
/// stack. Fails, with nothing written, if it is not, or if the bottom of the
/// stack is out of reach.
pub fn emit_return(arg: Value, level: usize, stack: &mut OperandStack, block: &mut masm::Block) -> (result:
    Result<(), StackifyError>)
    ensures
        match return_failure(old(stack)@, arg) {
            Some(e) => {
                &&& result == Err::<(), StackifyError>(e)
                &&& final(block)@ == old(block)@
                &&& final(stack)@ == old(stack)@
            },
            None => {
                &&& result is Ok
                &&& final(block)@ == old(block)@ + return_ops(level as nat, old(stack)@.len())
                &&& final(stack)@ == exit_entries(level as nat) + seq![old(stack)@[0]]
            },
        },
        balanced(final(block)@, old(block)@, final(stack)@, old(stack)@),
        result is Ok && level > 0 ==> final(block)@.len() > 0 && final(block)@.last() == Op::Push(
            Felt::of(0),
        ),
{
    proof {
        lemma_grows_same(old(block)@);
    }
    let size = stack.len();
    if size == 0 || !stack.get(0).is_named(arg) {
        return Err(StackifyError::UnexpectedStackState);
    }
    if size > 1 {
        let extra: usize = size - 1;
        if extra > MAX_OPERAND_INDEX {
            return Err(StackifyError::LimitExceeded);
        }
        block.push(Op::Swap(extra as u8));
        stack.swap(extra);
        let ghost block1 = block@;
        let ghost stack1 = stack@;
        proof {
            lemma_net_effect_few(Op::Swap(extra as u8), Op::Swap(extra as u8));
            assert(block1 =~= old(block)@ + seq![Op::Swap(extra as u8)]);
            lemma_wrote(old(block)@, seq![Op::Swap(extra as u8)], stack1, old(stack)@);
        }
        truncate_stack(1, stack, block);
        proof {
            lemma_balanced_trans(block@, block1, old(block)@, stack@, stack1, old(stack)@);
        }
        assert(stack@ =~= seq![old(stack)@[0]]);
        assert(block@ =~= old(block)@ + (seq![Op::Swap((size - 1) as u8)] + truncate_ops(
            (size - 1) as nat,
        )));
    } else {
        assert(stack@ =~= seq![old(stack)@[0]]);
    }
    let ghost mid = block@;
    let ghost mid_stack = stack@;
    emit_loop_exits(level, stack, block);
    assert(block@ =~= old(block)@ + return_ops(level as nat, old(stack)@.len()));
    proof {
        lemma_balanced_trans(block@, mid, old(block)@, stack@, mid_stack, old(stack)@);
    }
    Ok(())
}

/// The operations that continue the loop that lies `exits` loops further
/// out: a push of the true loop condition for that loop, under one push of
/// the false loop condition for each loop left on the way.
pub open spec fn loopback_ops(exits: nat) -> Seq<Op> {
    seq![Op::Push(Felt::of(1))] + exit_ops(exits)
}

/// Lowers the jump back to a loop header at nesting depth `target_level`
/// from a block at nesting depth `current_level`. Fails, with nothing
/// written, if the block is nested less deeply than the header.
pub fn emit_loopback(
    current_level: usize,
    target_level: usize,
    stack: &mut OperandStack,
    block: &mut masm::Block,
) -> (result: Result<(), StackifyError>)
    ensures
        current_level >= target_level <==> result is Ok,
        result is Err ==> result == Err::<(), StackifyError>(StackifyError::MalformedFunction)
            && final(block)@ == old(block)@ && final(stack)@ == old(stack)@,
        result is Ok ==> {
            let exits = (current_level - target_level) as nat;
            &&& final(block)@ == old(block)@ + loopback_ops(exits)
            &&& final(stack)@ == exit_entries(exits) + seq![
                Entry::plain(Operand::Const(Immediate::I1(true))),
            ] + old(stack)@
            &&& final(block)@.len() > 0
            &&& final(block)@.last() == Op::Push(Felt::of(1)) || final(block)@.last() == Op::Push(
                Felt::of(0),
            )
        },
        balanced(final(block)@, old(block)@, final(stack)@, old(stack)@),
{
    proof {
        lemma_grows_same(old(block)@);
    }
    if current_level < target_level {
        return Err(StackifyError::MalformedFunction);
    }
    block.push(Op::Push(Felt::one()));
    stack.push(Operand::Const(Immediate::I1(true)));
    let ghost block1 = block@;
    let ghost stack1 = stack@;
    proof {
        lemma_net_effect_few(Op::Push(Felt::of(1)), Op::Push(Felt::of(1)));
        assert(block1 =~= old(block)@ + seq![Op::Push(Felt::of(1))]);
        lemma_wrote(old(block)@, seq![Op::Push(Felt::of(1))], stack1, old(stack)@);
    }
    emit_loop_exits(current_level - target_level, stack, block);
    proof {
        lemma_balanced_trans(block@, block1, old(block)@, stack@, stack1, old(stack)@);
    }
    proof {
        let exits = (current_level - target_level) as nat;
        assert(block@ =~= old(block)@ + loopback_ops(exits));
        assert(stack@ =~= exit_entries(exits) + seq![
            Entry::plain(Operand::Const(Immediate::I1(true))),
        ] + old(stack)@);
    }
    Ok(())
}

/// Whether the operand `i` of an instruction is a value that an operand
/// before it reads too.
pub open spec fn repeated(args: Seq<Value>, i: int) -> bool {
    args.take(i).contains(args[i])
}

/// Why the copy for the repeated operand `i` cannot be made, if it cannot.
pub open spec fn repeat_failure(stack: Seq<Entry>, args: Seq<Value>, i: int) -> Option<
    StackifyError,
> {
    let j = first_named(stack, args[i], 0);
    if j >= stack.len() {
        Some(StackifyError::ValueNotFound(args[i]))
    } else if j > MAX_OPERAND_INDEX || i > MAX_OPERAND_INDEX || i > stack.len() {
        Some(StackifyError::LimitExceeded)
    } else {
        None
    }
}

/// The copy for the repeated operand `i`: the value is copied to the place
/// of the operand, counted from the first operand, which is on top.
pub open spec fn repeat_step(stack: Seq<Entry>, args: Seq<Value>, i: int, flexible: bool) -> Seq<
    Op,
> {
    copy_ops(first_named(stack, args[i], 0), i, flexible)
}

/// The copies for the operands from `i` on that read a value which an
/// operand before them reads too, up to the first that cannot be made.
pub open spec fn repeat_ops(stack: Seq<Entry>, args: Seq<Value>, i: int, flexible: bool) -> Seq<
    Op,
>
    decreases args.len() - i,
{
    if i < 0 || i >= args.len() {
        Seq::empty()
    } else if !repeated(args, i) {
        repeat_ops(stack, args, i + 1, flexible)
    } else if repeat_failure(stack, args, i) is Some {
        Seq::empty()
    } else {
        let step = repeat_step(stack, args, i, flexible);
        step + repeat_ops(apply_all(step, stack), args, i + 1, flexible)
    }
}

/// Why the copies for the operands from `i` on fail, if they do.
pub open spec fn repeat_error(stack: Seq<Entry>, args: Seq<Value>, i: int, flexible: bool) -> Option<
    StackifyError,
>
    decreases args.len() - i,
{
    if i < 0 || i >= args.len() {
        None
    } else if !repeated(args, i) {
        repeat_error(stack, args, i + 1, flexible)
    } else if repeat_failure(stack, args, i) is Some {
        repeat_failure(stack, args, i)
    } else {
        repeat_error(apply_all(repeat_step(stack, args, i, flexible), stack), args, i + 1, flexible)
    }
}

/// Gives an instruction that reads a value more than once an operand for
/// each read. The values that the instruction reads stand on top of the
/// stack, once each, in the order in which the operands first read them.
/// Going from the first operand to the last, an operand that reads a value
/// which an operand before it reads too gets a copy of the value at its own
/// place, so that in the end the operands stand on top of the stack in their
/// order, the first on top. Fails if such a value is not on the stack or out
/// of reach.
pub fn duplicate_repeated_operands(
    args: &[Value],
    flexible: bool,
    stack: &mut OperandStack,
    block: &mut masm::Block,
) -> (result: Result<(), StackifyError>)
    ensures
        match result {
            Ok(_) => {
                let ops = repeat_ops(old(stack)@, args@, 0, flexible);
                &&& repeat_error(old(stack)@, args@, 0, flexible) is None
                &&& final(block)@ == old(block)@ + ops
                &&& all_applicable(ops, old(stack)@)
                &&& final(stack)@ == apply_all(ops, old(stack)@)
                &&& final(stack)@.len() >= old(stack)@.len()
            },
            Err(e) => repeat_error(old(stack)@, args@, 0, flexible) == Some(e),
        },
        balanced(final(block)@, old(block)@, final(stack)@, old(stack)@),
{
    proof {
        lemma_grows_same(old(block)@);
    }
    let n = args.len();
    let ghost start = stack@;
    let ghost mut done: Seq<Op> = Seq::empty();
    let mut i: usize = 0;
    proof {
        assert(done + repeat_ops(start, args@, 0, flexible) =~= repeat_ops(
            start,
            args@,
            0,
            flexible,
        ));
        lemma_apply_all_concat(Seq::empty(), Seq::empty(), start);
    }
    while i < n
        invariant
            n == args@.len(),
            i <= n,
            start == old(stack)@,
            block@ == old(block)@ + done,
            balanced(block@, old(block)@, stack@, start),
            all_applicable(done, start),
            apply_all(done, start) == stack@,
            stack@.len() >= start.len(),
            done + repeat_ops(stack@, args@, i as int, flexible) == repeat_ops(
                start,
                args@,
                0,
                flexible,
            ),
            repeat_error(stack@, args@, i as int, flexible) == repeat_error(
                start,
                args@,
                0,
                flexible,
            ),
        decreases n - i,
    {
        let value = args[i];
        let ghost before = stack@;
        if crate::analysis::contains_value(vstd::slice::slice_subrange(args, 0, i), value) {
            assert(repeated(args@, i as int));
            let j = match stack.find(value) {
                Some(j) => j,
                None => {
                    return Err(StackifyError::ValueNotFound(value));
                },
            };
            if j > MAX_OPERAND_INDEX || i > MAX_OPERAND_INDEX || i > stack.len() {
                return Err(StackifyError::LimitExceeded);
            }
            assert(repeat_failure(before, args@, i as int) is None);
            let ghost step = repeat_step(before, args@, i as int, flexible);
            copy_operand_to_position(j, i, flexible, stack, block);
            proof {
                lemma_apply_all_concat(done, step, start);
                assert(block@ =~= old(block)@ + (done + step));
                assert((done + step) + repeat_ops(stack@, args@, i + 1, flexible) =~= done
                    + repeat_ops(before, args@, i as int, flexible));
                done = done + step;
                lemma_wrote_manipulations(old(block)@, done, start);
            }
        } else {
            assert(!repeated(args@, i as int));
        }
        i = i + 1;
    }
    proof {
        assert(done + Seq::<Op>::empty() =~= done);
    }
    Ok(())
}

/// What a computation of the SSA side becomes on the stack machine, given
/// the number of values it reads and defines: the operations to write, or
/// why there are none. An operator finds its first operand on top of the
/// stack. A constant operand is pushed before the operator is applied; where
/// it is the second operand of an operator to which the order matters, it is
/// then put under the first. A global value becomes a push of its address
/// `addr`, or a load from it.
pub open spec fn op_lowering(
    ix: Instruction,
    global: Option<GlobalValueData>,
    addr: u32,
    inputs: nat,
    outputs: nat,
) -> Result<Seq<Op>, StackifyError> {
    if inputs > 255 || outputs > 255 {
        Err(StackifyError::LimitExceeded)
    } else {
        match ix {
            Instruction::GlobalValue(_) => match global {
                Some(GlobalValueData::Load { felts, .. }) => if inputs != 0 || outputs != 1 {
                    Err(StackifyError::MalformedFunction)
                } else if felts != 1 {
                    Err(StackifyError::UnsupportedLoad)
                } else {
                    Ok(seq![Op::MemLoadImm(addr)])
                },
                Some(_) => if inputs != 0 || outputs != 1 {
                    Err(StackifyError::MalformedFunction)
                } else {
                    Ok(seq![Op::PushU32(addr)])
                },
                None => Err(StackifyError::MalformedFunction),
            },
            Instruction::UnaryOp(op) => if inputs != 1 || outputs != 1 {
                Err(StackifyError::MalformedFunction)
            } else {
                Ok(seq![Op::Unary(op)])
            },
            Instruction::UnaryOpImm(op, imm) => if inputs != 0 || outputs != 1 {
                Err(StackifyError::MalformedFunction)
            } else {
                with_operand(imm, Op::Unary(op))
            },
            Instruction::BinaryOp(op) => if inputs != 2 || outputs != 1 {
                Err(StackifyError::MalformedFunction)
            } else {
                Ok(seq![Op::Binary(op)])
            },
            Instruction::BinaryOpImm(op, imm) => if inputs != 1 || outputs != 1 {
                Err(StackifyError::MalformedFunction)
            } else {
                with_second_operand(imm, op)
            },
            Instruction::Test(op) => if inputs != 1 || outputs != 1 {
                Err(StackifyError::MalformedFunction)
            } else {
                Ok(seq![Op::Test(op)])
            },
            Instruction::Load => if inputs != 1 || outputs != 1 {
                Err(StackifyError::MalformedFunction)
            } else {
                Ok(seq![Op::MemLoad])
            },
            Instruction::PrimOp(opcode) => Ok(
                seq![Op::Prim { opcode, inputs: inputs as u8, outputs: outputs as u8 }],
            ),
            Instruction::PrimOpImm(opcode, imm) => if inputs >= 255 {
                Err(StackifyError::LimitExceeded)
            } else {
                with_operand(
                    imm,
                    Op::Prim { opcode, inputs: (inputs + 1) as u8, outputs: outputs as u8 },
                )
            },
            Instruction::Call(callee) => Ok(
                seq![Op::Exec { callee, inputs: inputs as u8, outputs: outputs as u8 }],
            ),
            Instruction::MemCpy => if inputs != 3 || outputs != 0 {
                Err(StackifyError::MalformedFunction)
            } else {
                Ok(seq![Op::MemCpy])
            },
            Instruction::InlineAsm(fragment) => Ok(
                seq![Op::Asm { fragment, inputs: inputs as u8, outputs: outputs as u8 }],
            ),
            _ => Err(StackifyError::MalformedFunction),
        }
    }
}

/// What a computation becomes stays in its block, and its net effect is
/// the number of values that the computation defines less the number that it
/// reads.
pub proof fn lemma_op_lowering(
    ix: Instruction,
    global: Option<GlobalValueData>,
    addr: u32,
    inputs: nat,
    outputs: nat,
)
    requires
        op_lowering(ix, global, addr, inputs, outputs) is Ok,
    ensures
        straight(op_lowering(ix, global, addr, inputs, outputs)->Ok_0),
        net_effect(op_lowering(ix, global, addr, inputs, outputs)->Ok_0) == outputs - inputs,
{
    let ops = op_lowering(ix, global, addr, inputs, outputs)->Ok_0;
    if ops.len() == 1 {
        lemma_net_effect_few(ops[0], ops[0]);
        assert(ops =~= seq![ops[0]]);
    } else if ops.len() == 2 {
        lemma_net_effect_few(ops[0], ops[1]);
        assert(ops =~= seq![ops[0], ops[1]]);
    } else {
        assert(ops.len() == 3);
        lemma_net_effect_few(ops[0], ops[1]);
        lemma_net_effect_push(seq![ops[0], ops[1]], ops[2]);
        assert(ops =~= seq![ops[0], ops[1]].push(ops[2]));
    }
}

/// The push of the constant operand `imm`, which has to be a single
/// operand, followed by `op`.
pub open spec fn with_operand(imm: Immediate, op: Op) -> Result<Seq<Op>, StackifyError> {
    match push_op_of(imm) {
        Some(push) => if push is Push2 {
            Err(StackifyError::UnsupportedImmediate)
        } else {
            Ok(seq![push, op])
        },
        None => Err(StackifyError::UnsupportedImmediate),
    }
}

/// The push of the constant `imm`, which is the second operand of the binary
/// operator `op`, followed by the operator: where the order of the operands
/// matters to the operator, the constant is put under the first operand
/// before the operator is applied.
pub open spec fn with_second_operand(imm: Immediate, op: Opcode) -> Result<Seq<Op>, StackifyError> {
    match with_operand(imm, Op::Binary(op)) {
        Ok(ops) => if op.commutes() {
            Ok(ops)
        } else {
            Ok(seq![ops[0], Op::Swap(1), Op::Binary(op)])
        },
        Err(e) => Err(e),
    }
}

/// The push of the constant `imm` as the second operand of `op`, followed by
/// the operator.
fn lower_with_second_operand(imm: Immediate, op: Opcode) -> (result: Result<Vec<Op>, StackifyError>)
    ensures
        match with_second_operand(imm, op) {
            Ok(ops) => result is Ok && result->Ok_0@ == ops,
            Err(e) => result == Err::<Vec<Op>, StackifyError>(e),
        },
{
    let push = match immediate_to_push_op(imm) {
        Ok(push) => push,
        Err(e) => {
            return Err(e);
        },
    };
    match push {
        Op::Push2(_, _) => Err(StackifyError::UnsupportedImmediate),
        _ => {
            let mut ops: Vec<Op> = Vec::new();
            ops.push(push);
            if !op.is_commutative() {
                ops.push(Op::Swap(1));
            }
            ops.push(Op::Binary(op));
            assert(ops@ =~= with_second_operand(imm, op)->Ok_0);
            Ok(ops)
        },
    }
}

/// The push of the constant operand `imm` followed by `op`.
fn lower_with_operand(imm: Immediate, op: Op) -> (result: Result<Vec<Op>, StackifyError>)
    ensures
        match with_operand(imm, op) {
            Ok(ops) => result is Ok && result->Ok_0@ == ops,
            Err(e) => result == Err::<Vec<Op>, StackifyError>(e),
        },
{
    let push = match immediate_to_push_op(imm) {
        Ok(push) => push,
        Err(e) => {
            return Err(e);
        },
    };
    match push {
        Op::Push2(_, _) => Err(StackifyError::UnsupportedImmediate),
        _ => {
            let mut ops: Vec<Op> = Vec::new();
            ops.push(push);
            ops.push(op);
            assert(ops@ =~= seq![push, op]);
            Ok(ops)
        },
    }
}

/// One operation as a list.
fn single(op: Op) -> (ops: Vec<Op>)
    ensures
        ops@ == seq![op],
{
    let mut ops: Vec<Op> = Vec::new();
    ops.push(op);
    assert(ops@ =~= seq![op]);
    ops
}

/// The operations that the computation `ix` becomes.
pub fn lower_computation(
    ix: &Instruction,
    global: Option<GlobalValueData>,
    addr: u32,
    inputs: usize,
    outputs: usize,
) -> (result: Result<Vec<Op>, StackifyError>)
    ensures
        match op_lowering(*ix, global, addr, inputs as nat, outputs as nat) {
            Ok(ops) => result is Ok && result->Ok_0@ == ops,
            Err(e) => result == Err::<Vec<Op>, StackifyError>(e),
        },
{
    if inputs > 255 || outputs > 255 {
        return Err(StackifyError::LimitExceeded);
    }
    match ix {
        Instruction::GlobalValue(_) => match global {
            Some(GlobalValueData::Load { felts, .. }) => {
                if inputs != 0 || outputs != 1 {
                    Err(StackifyError::MalformedFunction)
                } else if felts != 1 {
                    Err(StackifyError::UnsupportedLoad)
                } else {
                    Ok(single(Op::MemLoadImm(addr)))
                }
            },
            Some(_) => {
                if inputs != 0 || outputs != 1 {
                    Err(StackifyError::MalformedFunction)
                } else {
                    Ok(single(Op::PushU32(addr)))
                }
            },
            None => Err(StackifyError::MalformedFunction),
        },
        Instruction::UnaryOp(op) => {
            if inputs != 1 || outputs != 1 {
                Err(StackifyError::MalformedFunction)
            } else {
                Ok(single(Op::Unary(*op)))
            }
        },
        Instruction::UnaryOpImm(op, imm) => {
            if inputs != 0 || outputs != 1 {
                Err(StackifyError::MalformedFunction)
            } else {
                lower_with_operand(*imm, Op::Unary(*op))
            }
        },
        Instruction::BinaryOp(op) => {
            if inputs != 2 || outputs != 1 {
                Err(StackifyError::MalformedFunction)
            } else {
                Ok(single(Op::Binary(*op)))
            }
        },
        Instruction::BinaryOpImm(op, imm) => {
            if inputs != 1 || outputs != 1 {
                Err(StackifyError::MalformedFunction)
            } else {
                lower_with_second_operand(*imm, *op)
            }
        },
        Instruction::Test(op) => {
            if inputs != 1 || outputs != 1 {
                Err(StackifyError::MalformedFunction)
            } else {
                Ok(single(Op::Test(*op)))
            }
        },
        Instruction::Load => {
            if inputs != 1 || outputs != 1 {
                Err(StackifyError::MalformedFunction)
            } else {
                Ok(single(Op::MemLoad))
            }
        },
        Instruction::PrimOp(opcode) => Ok(
            single(Op::Prim { opcode: *opcode, inputs: inputs as u8, outputs: outputs as u8 }),
        ),
        Instruction::PrimOpImm(opcode, imm) => {
            if inputs >= 255 {
                Err(StackifyError::LimitExceeded)
            } else {
                lower_with_operand(
                    *imm,
                    Op::Prim { opcode: *opcode, inputs: (inputs + 1) as u8, outputs: outputs as u8 },
                )
            }
        },
        Instruction::Call(callee) => Ok(
            single(Op::Exec { callee: *callee, inputs: inputs as u8, outputs: outputs as u8 }),
        ),
        Instruction::MemCpy => {
            if inputs != 3 || outputs != 0 {
                Err(StackifyError::MalformedFunction)
            } else {
                Ok(single(Op::MemCpy))
            }
        },
        Instruction::InlineAsm(fragment) => Ok(
            single(Op::Asm { fragment: *fragment, inputs: inputs as u8, outputs: outputs as u8 }),
        ),
        _ => Err(StackifyError::MalformedFunction),
    }
}

/// The entries for the results of an instruction, first result on top.
pub open spec fn result_entries(results: Seq<Value>) -> Seq<Entry> {
    Seq::new(results.len(), |i: int| Entry::plain(Operand::Value(results[i])))
}

/// Whether the stack holds the operands `args` of a computation on top, the
/// first topmost; the two operands of an operator to which their order does
/// not matter may stand in either order.
pub open spec fn operands_on_top(stack: Seq<Entry>, args: Seq<Value>, flexible: bool) -> bool {
    arranged(stack, args) || (flexible && args.len() == 2 && arranged(
        stack,
        seq![args[1], args[0]],
    ))
}

/// Whether the stack holds `args` on top, the first topmost.
fn is_arranged(args: &[Value], stack: &OperandStack) -> (result: bool)
    ensures
        result == arranged(stack@, args@),
{
    if args.len() > stack.len() {
        return false;
    }
    let mut i: usize = 0;
    while i < args.len()
        invariant
            i <= args@.len() <= stack@.len(),
            forall|j: int| 0 <= j < i ==> (#[trigger] stack@[j]).names(args@[j]),
        decreases args@.len() - i,
    {
        if !stack.get(i).is_named(args[i]) {
            return false;
        }
        i = i + 1;
    }
    true
}

/// Whether the stack holds the operands `args` of a computation on top.
pub fn has_operands_on_top(args: &[Value], flexible: bool, stack: &OperandStack) -> (result: bool)
    ensures
        result == operands_on_top(stack@, args@, flexible),
{
    if is_arranged(args, stack) {
        return true;
    }
    if flexible && args.len() == 2 && stack.len() >= 2 {
        let turned = stack.get(0).is_named(args[1]) && stack.get(1).is_named(args[0]);
        proof {
            let other = seq![args@[1], args@[0]];
            if turned {
                assert forall|i: int| 0 <= i < other.len() implies (#[trigger] stack@[i]).names(
                    other[i],
                ) by {}
            } else {
                if arranged(stack@, other) {
                    assert(stack@[0].names(other[0]));
                    assert(stack@[1].names(other[1]));
                }
            }
        }
        return turned;
    }
    false
}

/// Writes the operations `ops` of a computation that reads the operands
/// `args` from the top of the stack and defines `results`, and brings the
/// model of the stack up to date: the operands leave, the results come, the
/// first of them on top. Fails, with nothing written, unless the top of the
/// stack holds the operands, the first topmost, or, with `flexible`, the two
/// of them in either order.
pub fn apply_computation(
    ops: &Vec<Op>,
    args: &[Value],
    flexible: bool,
    results: &[Value],
    stack: &mut OperandStack,
    block: &mut masm::Block,
) -> (result: Result<(), StackifyError>)
    ensures
        operands_on_top(old(stack)@, args@, flexible) <==> result is Ok,
        result is Err ==> result == Err::<(), StackifyError>(StackifyError::UnexpectedStackState)
            && final(block)@ == old(block)@ && final(stack)@ == old(stack)@,
        result is Ok ==> {
            &&& final(block)@ == old(block)@ + ops@
            &&& final(stack)@ == result_entries(results@) + old(stack)@.skip(args@.len() as int)
        },
        straight(ops@) ==> grows(final(block)@, old(block)@),
        straight(ops@) && net_effect(ops@) == results@.len() - args@.len() ==> balanced(
            final(block)@,
            old(block)@,
            final(stack)@,
            old(stack)@,
        ),
{
    proof {
        lemma_grows_same(old(block)@);
        if straight(ops@) {
            lemma_grows_more(old(block)@, ops@);
        }
    }
    if !has_operands_on_top(args, flexible, stack) {
        return Err(StackifyError::UnexpectedStackState);
    }
    let inputs = args.len();
    let mut i: usize = 0;
    while i < ops.len()
        invariant
            i <= ops@.len(),
            block@ == old(block)@ + ops@.take(i as int),
        decreases ops@.len() - i,
    {
        block.push(ops[i]);
        i = i + 1;
        assert(block@ =~= old(block)@ + ops@.take(i as int));
    }
    assert(ops@.take(i as int) =~= ops@);
    stack.dropn(inputs);
    let ghost rest = stack@;
    let mut r: usize = results.len();
    assert(stack@ =~= result_entries(results@).skip(r as int) + rest);
    while r > 0
        invariant
            r <= results@.len(),
            stack@ == result_entries(results@).skip(r as int) + rest,
        decreases r,
    {
        r = r - 1;
        stack.push(Operand::Value(results[r]));
        assert(stack@ =~= result_entries(results@).skip(r as int) + rest);
    }
    assert(result_entries(results@).skip(0) =~= result_entries(results@));
    Ok(())
}

} // verus!
