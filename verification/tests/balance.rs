use stackify::analysis::{LivenessAnalysis, LoopAnalysis};
use stackify::arguments::prepare_stack_arguments;
use stackify::clearing::drop_unused_operands_at;
use stackify::emitter::MasmEmitter;
use stackify::hir::{
    BlockData, Function, Immediate, InstData, Instruction, Program, ProgramPoint, ValueData,
};
use stackify::lowering::{emit_loopback, emit_return, emit_return_imm};
use stackify::masm::{self, Block, Felt, Op, Opcode};
use stackify::operand_stack::{Operand, OperandStack};
use stackify::oracle::fetch_operand;
use stackify::primitives::{
    copy_operand_to_position, drop_operand_at_position, move_operand_to_position, truncate_stack,
};

fn stack_of(values: &[u32]) -> OperandStack {
    let mut stack = OperandStack::new();
    for value in values.iter().rev() {
        stack.push(Operand::Value(*value));
    }
    stack
}

/// The change in stack depth that an operation causes.
fn effect(op: &Op) -> i64 {
    match op {
        Op::Push(_) | Op::PushU8(_) | Op::PushU32(_) | Op::Dup(_) | Op::MemLoadImm(_) => 1,
        Op::Push2(_, _) => 2,
        Op::Drop | Op::If(_, _) | Op::While(_) | Op::Binary(_) => -1,
        Op::Dropw => -4,
        Op::MemCpy => -3,
        Op::Swap(_) | Op::Movup(_) | Op::Movdn(_) => 0,
        Op::MemLoad | Op::Unary(_) | Op::Test(_) => 0,
        Op::Prim { inputs, outputs, .. }
        | Op::Exec { inputs, outputs, .. }
        | Op::Asm { inputs, outputs, .. } => *outputs as i64 - *inputs as i64,
    }
}

fn net(ops: &[Op]) -> i64 {
    ops.iter().map(effect).sum()
}

fn liveness(at_block: &[u32], after_inst: &[u32]) -> LivenessAnalysis {
    LivenessAnalysis {
        live_at_block: vec![at_block.to_vec()],
        live_after_block: vec![vec![]],
        live_at_inst: vec![vec![]; 4],
        live_after_inst: vec![after_inst.to_vec(), vec![], vec![], vec![]],
    }
}

#[test]
fn what_is_written_accounts_for_the_stack() {
    let live = liveness(&[3, 5], &[2]);
    let mut stack = stack_of(&[1, 2, 3, 4, 5, 6, 7]);
    let mut block = Block::new();
    let mut depth = stack.len() as i64;
    let mut written = 0;
    let mut check = |stack: &OperandStack, block: &Block| {
        let now = stack.len() as i64;
        assert_eq!(net(&block.ops[written..]), now - depth);
        depth = now;
        written = block.ops.len();
    };
    copy_operand_to_position(3, 2, false, &mut stack, &mut block);
    check(&stack, &block);
    move_operand_to_position(5, 1, false, &mut stack, &mut block);
    check(&stack, &block);
    drop_operand_at_position(4, &mut stack, &mut block);
    check(&stack, &block);
    fetch_operand(7, 0, false, true, &mut stack, &mut block).unwrap();
    check(&stack, &block);
    fetch_operand(6, 1, true, false, &mut stack, &mut block).unwrap();
    check(&stack, &block);
    drop_unused_operands_at(ProgramPoint::Block(0), &[1, 2], &mut stack, &mut block, &live).unwrap();
    check(&stack, &block);
    prepare_stack_arguments(0, &[2, 1], &mut stack, &mut block, &live).unwrap();
    check(&stack, &block);
    emit_loopback(3, 1, &mut stack, &mut block).unwrap();
    check(&stack, &block);
    truncate_stack(2, &mut stack, &mut block);
    check(&stack, &block);
    emit_return_imm(Immediate::U64(1 << 40), 2, &mut stack, &mut block).unwrap();
    check(&stack, &block);
}

#[test]
fn a_return_from_a_loop_ends_with_the_false_condition() {
    let mut stack = stack_of(&[9, 8, 7]);
    let mut block = Block::new();
    emit_return(9, 1, &mut stack, &mut block).unwrap();
    assert_eq!(net(&block.ops), stack.len() as i64 - 3);
    assert_eq!(block.ops.last(), Some(&Op::Push(Felt::zero())));
}

#[test]
fn a_block_accounts_for_its_stack_where_the_lowering_goes_on_in_it() {
    // block0(n): br block1(n)
    // block1(i) heads the loop: c = is_odd i; cond_br c, block2, block3
    // block2: j = incr i; br block1(j)          block3: ret i
    let inst = |block: u32, ix: Instruction, args: &[u32], results: &[u32]| InstData {
        block,
        ix,
        args: args.to_vec(),
        results: results.to_vec(),
    };
    let f = Function {
        id: 1,
        entry: 0,
        blocks: vec![
            BlockData { params: vec![0], insts: vec![0] },
            BlockData { params: vec![1], insts: vec![1, 2] },
            BlockData { params: vec![], insts: vec![3, 4] },
            BlockData { params: vec![], insts: vec![5] },
        ],
        insts: vec![
            inst(0, Instruction::Br { destination: 1, args: vec![0] }, &[], &[]),
            inst(1, Instruction::Test(Opcode::IsOdd), &[1], &[2]),
            inst(
                1,
                Instruction::CondBr {
                    then_dest: 2,
                    then_args: vec![],
                    else_dest: 3,
                    else_args: vec![],
                },
                &[2],
                &[],
            ),
            inst(2, Instruction::UnaryOp(Opcode::Incr), &[1], &[3]),
            inst(2, Instruction::Br { destination: 1, args: vec![3] }, &[], &[]),
            inst(3, Instruction::Ret, &[1], &[]),
        ],
        values: vec![
            ValueData::Param { block: 0, index: 0 },
            ValueData::Param { block: 1, index: 0 },
            ValueData::Inst { inst: 1, index: 0 },
            ValueData::Inst { inst: 3, index: 0 },
        ],
        globals: vec![],
    };
    assert!(f.validate());
    let loops = LoopAnalysis { headers: vec![None, Some(0), None, None], levels: vec![0, 1, 1, 0] };
    let live = LivenessAnalysis {
        live_at_block: vec![vec![], vec![], vec![1], vec![1]],
        live_after_block: vec![vec![], vec![1], vec![], vec![]],
        live_at_inst: vec![vec![]; 6],
        live_after_inst: vec![vec![], vec![1, 2], vec![1], vec![3], vec![], vec![]],
    };
    let program = Program { next_available_offset: 0, globals: vec![] };
    let mut emitter = MasmEmitter::new(&program, &f, masm::Function::new(1), &loops, &live);
    let end = emitter.emit(0, 0, stack_of(&[0])).unwrap();
    let lowered = emitter.finish();
    // The first block goes on with the loop header, which forks: it ends
    // with the condition on the stack, above the value that is tested.
    assert_eq!(
        end.operands(),
        vec![Operand::Value(2), Operand::Value(1)]
    );
    assert_eq!(net(&lowered.blocks[0].ops), end.len() as i64 - 1);
    // The body of the loop takes the condition.
    assert_eq!(lowered.blocks[3].ops, vec![Op::If(1, 2)]);
    assert_eq!(net(&lowered.blocks[3].ops), -1);
}
