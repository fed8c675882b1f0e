use stackify::error::StackifyError;
use stackify::hir::{GlobalValueData, Immediate, Instruction};
use stackify::lowering::{
    apply_computation, duplicate_repeated_operands, emit_loop_exits, emit_loopback, emit_return,
    emit_return_imm, has_operands_on_top, immediate_to_push_op, lower_computation, push_immediate,
};
use stackify::masm::{Block, Felt, Op, Opcode};
use stackify::operand_stack::{Operand, OperandStack};

fn v(value: u32) -> Operand {
    Operand::Value(value)
}

fn stack_of(values: &[u32]) -> OperandStack {
    let mut stack = OperandStack::new();
    for value in values.iter().rev() {
        stack.push(v(*value));
    }
    stack
}

#[test]
fn immediates_become_pushes() {
    assert_eq!(immediate_to_push_op(Immediate::I1(true)), Ok(Op::PushU8(1)));
    assert_eq!(immediate_to_push_op(Immediate::I1(false)), Ok(Op::PushU8(0)));
    assert_eq!(immediate_to_push_op(Immediate::U8(200)), Ok(Op::PushU32(200)));
    assert_eq!(immediate_to_push_op(Immediate::U16(60000)), Ok(Op::PushU32(60000)));
    assert_eq!(immediate_to_push_op(Immediate::U32(4_000_000_000)), Ok(Op::PushU32(4_000_000_000)));
    assert_eq!(
        immediate_to_push_op(Immediate::U64(0x0000_0005_0000_0007)),
        Ok(Op::Push2(Felt::new(7), Felt::new(5)))
    );
    assert_eq!(
        immediate_to_push_op(Immediate::U64(u64::MAX)),
        Ok(Op::Push2(Felt::new(0xFFFF_FFFF), Felt::new(0xFFFF_FFFF)))
    );
    assert_eq!(immediate_to_push_op(Immediate::Felt(Felt::new(11))), Ok(Op::Push(Felt::new(11))));
}

#[test]
fn signed_and_floating_point_immediates_are_refused() {
    let refused = [
        Immediate::I8(-1),
        Immediate::I16(1),
        Immediate::I32(0),
        Immediate::I64(-5),
        Immediate::I128(5),
        Immediate::F64(0),
    ];
    for imm in refused {
        assert_eq!(immediate_to_push_op(imm), Err(StackifyError::UnsupportedImmediate));
    }
}

#[test]
fn a_wide_immediate_leaves_two_operands() {
    let mut stack = stack_of(&[1]);
    let mut block = Block::new();
    assert_eq!(push_immediate(Immediate::U64(0x0000_0005_0000_0007), &mut stack, &mut block), Ok(()));
    assert_eq!(block.ops, vec![Op::Push2(Felt::new(7), Felt::new(5))]);
    assert_eq!(
        stack.operands(),
        vec![Operand::Const(Immediate::U32(5)), Operand::Const(Immediate::U32(7)), v(1)]
    );
}

#[test]
fn loop_exits_push_false_conditions() {
    let mut stack = stack_of(&[1]);
    let mut block = Block::new();
    emit_loop_exits(2, &mut stack, &mut block);
    assert_eq!(block.ops, vec![Op::Push(Felt::zero()), Op::Push(Felt::zero())]);
    assert_eq!(
        stack.operands(),
        vec![Operand::Const(Immediate::I1(false)), Operand::Const(Immediate::I1(false)), v(1)]
    );
}

#[test]
fn return_of_a_constant_empties_the_stack_first() {
    let mut stack = stack_of(&[1, 2, 3, 4, 5]);
    let mut block = Block::new();
    assert_eq!(emit_return_imm(Immediate::U32(3), 1, &mut stack, &mut block), Ok(()));
    assert_eq!(
        block.ops,
        vec![Op::Dropw, Op::Drop, Op::PushU32(3), Op::Push(Felt::zero())]
    );
    assert_eq!(
        stack.operands(),
        vec![Operand::Const(Immediate::I1(false)), Operand::Const(Immediate::U32(3))]
    );
}

#[test]
fn return_of_an_unsupported_constant_writes_nothing() {
    let mut stack = stack_of(&[1, 2]);
    let mut block = Block::new();
    assert_eq!(
        emit_return_imm(Immediate::I8(3), 0, &mut stack, &mut block),
        Err(StackifyError::UnsupportedImmediate)
    );
    assert_eq!(block.ops, vec![]);
    assert_eq!(stack.len(), 2);
}

#[test]
fn return_of_a_value_moves_it_to_the_bottom() {
    let mut stack = stack_of(&[1, 2, 3, 4, 5, 6]);
    let mut block = Block::new();
    assert_eq!(emit_return(1, 0, &mut stack, &mut block), Ok(()));
    assert_eq!(block.ops, vec![Op::Swap(5), Op::Dropw, Op::Drop]);
    assert_eq!(stack.operands(), vec![v(1)]);
}

#[test]
fn return_of_the_only_operand_writes_only_the_exits() {
    let mut stack = stack_of(&[1]);
    let mut block = Block::new();
    assert_eq!(emit_return(1, 2, &mut stack, &mut block), Ok(()));
    assert_eq!(block.ops, vec![Op::Push(Felt::zero()), Op::Push(Felt::zero())]);
}

#[test]
fn return_needs_the_value_on_top() {
    let mut stack = stack_of(&[2, 1]);
    let mut block = Block::new();
    assert_eq!(
        emit_return(1, 0, &mut stack, &mut block),
        Err(StackifyError::UnexpectedStackState)
    );
    let mut stack = OperandStack::new();
    assert_eq!(
        emit_return(1, 0, &mut stack, &mut block),
        Err(StackifyError::UnexpectedStackState)
    );
    let deep: Vec<u32> = (0..18).collect();
    let mut stack = stack_of(&deep);
    assert_eq!(emit_return(0, 0, &mut stack, &mut block), Err(StackifyError::LimitExceeded));
    assert_eq!(block.ops, vec![]);
}

#[test]
fn loopback_continues_the_target_and_leaves_the_loops_between() {
    let mut stack = stack_of(&[1]);
    let mut block = Block::new();
    assert_eq!(emit_loopback(2, 0, &mut stack, &mut block), Ok(()));
    assert_eq!(
        block.ops,
        vec![Op::Push(Felt::one()), Op::Push(Felt::zero()), Op::Push(Felt::zero())]
    );
    assert_eq!(
        stack.operands(),
        vec![
            Operand::Const(Immediate::I1(false)),
            Operand::Const(Immediate::I1(false)),
            Operand::Const(Immediate::I1(true)),
            v(1)
        ]
    );

    let mut block = Block::new();
    assert_eq!(emit_loopback(1, 1, &mut stack, &mut block), Ok(()));
    assert_eq!(block.ops, vec![Op::Push(Felt::one())]);
}

#[test]
fn loopback_into_a_deeper_loop_is_refused() {
    let mut stack = stack_of(&[1]);
    let mut block = Block::new();
    assert_eq!(
        emit_loopback(0, 1, &mut stack, &mut block),
        Err(StackifyError::MalformedFunction)
    );
    assert_eq!(block.ops, vec![]);
}

#[test]
fn repeated_operands_are_copied() {
    let mut stack = stack_of(&[1, 9]);
    let mut block = Block::new();
    assert_eq!(duplicate_repeated_operands(&[1, 1], true, &mut stack, &mut block), Ok(()));
    assert_eq!(block.ops, vec![Op::Dup(0)]);
    assert_eq!(stack.operands(), vec![v(1), v(1), v(9)]);

    // f(v2, v1, v2): the values stand in the order of the operands, the
    // first on top, and the third operand gets a copy of the first.
    let mut stack = stack_of(&[2, 1]);
    let mut block = Block::new();
    assert_eq!(duplicate_repeated_operands(&[2, 1, 2], false, &mut stack, &mut block), Ok(()));
    assert_eq!(block.ops, vec![Op::Dup(0), Op::Movdn(2)]);
    assert_eq!(stack.operands(), vec![v(2), v(1), v(2)]);

    // f(v2, v2, v1): the copy goes between the first operand and the last.
    let mut stack = stack_of(&[2, 1]);
    let mut block = Block::new();
    assert_eq!(duplicate_repeated_operands(&[2, 2, 1], false, &mut stack, &mut block), Ok(()));
    assert_eq!(block.ops, vec![Op::Dup(0), Op::Swap(1)]);
    assert_eq!(stack.operands(), vec![v(2), v(2), v(1)]);

    // f(v3, v3, v3) with more below: a copy for each further read.
    let mut stack = stack_of(&[3, 7]);
    let mut block = Block::new();
    assert_eq!(duplicate_repeated_operands(&[3, 3, 3], false, &mut stack, &mut block), Ok(()));
    assert_eq!(block.ops, vec![Op::Dup(0), Op::Swap(1), Op::Dup(0), Op::Movdn(2)]);
    assert_eq!(stack.operands(), vec![v(3), v(3), v(3), v(7)]);

    // Nothing is repeated.
    let mut block = Block::new();
    assert_eq!(duplicate_repeated_operands(&[1, 2], false, &mut stack, &mut block), Ok(()));
    assert_eq!(block.ops, vec![]);

    let mut stack = stack_of(&[1]);
    assert_eq!(
        duplicate_repeated_operands(&[5, 5], false, &mut stack, &mut block),
        Err(StackifyError::ValueNotFound(5))
    );
}

#[test]
fn computations_by_family() {
    let none = None::<GlobalValueData>;
    assert_eq!(
        lower_computation(&Instruction::UnaryOp(Opcode::Neg), none, 0, 1, 1),
        Ok(vec![Op::Unary(Opcode::Neg)])
    );
    assert_eq!(
        lower_computation(&Instruction::UnaryOpImm(Opcode::Not, Immediate::I1(true)), none, 0, 0, 1),
        Ok(vec![Op::PushU8(1), Op::Unary(Opcode::Not)])
    );
    assert_eq!(
        lower_computation(&Instruction::BinaryOp(Opcode::Sub), none, 0, 2, 1),
        Ok(vec![Op::Binary(Opcode::Sub)])
    );
    // The constant is the second operand: where the order matters, it goes
    // under the first.
    assert_eq!(
        lower_computation(&Instruction::BinaryOpImm(Opcode::Sub, Immediate::U32(4)), none, 0, 1, 1),
        Ok(vec![Op::PushU32(4), Op::Swap(1), Op::Binary(Opcode::Sub)])
    );
    assert_eq!(
        lower_computation(&Instruction::BinaryOpImm(Opcode::Add, Immediate::U32(4)), none, 0, 1, 1),
        Ok(vec![Op::PushU32(4), Op::Binary(Opcode::Add)])
    );
    assert_eq!(
        lower_computation(&Instruction::Test(Opcode::IsOdd), none, 0, 1, 1),
        Ok(vec![Op::Test(Opcode::IsOdd)])
    );
    assert_eq!(lower_computation(&Instruction::Load, none, 0, 1, 1), Ok(vec![Op::MemLoad]));
    assert_eq!(
        lower_computation(&Instruction::PrimOp(Opcode::Store), none, 0, 2, 0),
        Ok(vec![Op::Prim { opcode: Opcode::Store, inputs: 2, outputs: 0 }])
    );
    assert_eq!(
        lower_computation(&Instruction::PrimOpImm(Opcode::AssertEq, Immediate::U8(1)), none, 0, 1, 0),
        Ok(vec![Op::PushU32(1), Op::Prim { opcode: Opcode::AssertEq, inputs: 2, outputs: 0 }])
    );
    assert_eq!(
        lower_computation(&Instruction::Call(12), none, 0, 3, 2),
        Ok(vec![Op::Exec { callee: 12, inputs: 3, outputs: 2 }])
    );
    assert_eq!(lower_computation(&Instruction::MemCpy, none, 0, 3, 0), Ok(vec![Op::MemCpy]));
    assert_eq!(
        lower_computation(&Instruction::InlineAsm(4), none, 0, 1, 1),
        Ok(vec![Op::Asm { fragment: 4, inputs: 1, outputs: 1 }])
    );
    let symbol = Some(GlobalValueData::Symbol { name: 1, offset: 0 });
    assert_eq!(
        lower_computation(&Instruction::GlobalValue(0), symbol, 77, 0, 1),
        Ok(vec![Op::PushU32(77)])
    );
    let load = Some(GlobalValueData::Load { base: 0, offset: 0, felts: 1 });
    assert_eq!(
        lower_computation(&Instruction::GlobalValue(0), load, 77, 0, 1),
        Ok(vec![Op::MemLoadImm(77)])
    );
}

#[test]
fn computations_that_are_refused() {
    let none = None::<GlobalValueData>;
    assert_eq!(
        lower_computation(&Instruction::BinaryOp(Opcode::Add), none, 0, 3, 1),
        Err(StackifyError::MalformedFunction)
    );
    assert_eq!(
        lower_computation(&Instruction::Ret, none, 0, 1, 0),
        Err(StackifyError::MalformedFunction)
    );
    assert_eq!(
        lower_computation(&Instruction::Call(1), none, 0, 256, 0),
        Err(StackifyError::LimitExceeded)
    );
    assert_eq!(
        lower_computation(&Instruction::UnaryOpImm(Opcode::Neg, Immediate::U64(1)), none, 0, 0, 1),
        Err(StackifyError::UnsupportedImmediate)
    );
    assert_eq!(
        lower_computation(&Instruction::UnaryOpImm(Opcode::Neg, Immediate::I8(1)), none, 0, 0, 1),
        Err(StackifyError::UnsupportedImmediate)
    );
    let wide = Some(GlobalValueData::Load { base: 0, offset: 0, felts: 4 });
    assert_eq!(
        lower_computation(&Instruction::GlobalValue(0), wide, 0, 0, 1),
        Err(StackifyError::UnsupportedLoad)
    );
    assert_eq!(
        lower_computation(&Instruction::GlobalValue(0), none, 0, 0, 1),
        Err(StackifyError::MalformedFunction)
    );
}

#[test]
fn a_computation_takes_its_operands_and_leaves_its_results() {
    let mut stack = stack_of(&[1, 2, 3]);
    let mut block = Block::new();
    let ops = vec![Op::Exec { callee: 1, inputs: 2, outputs: 2 }];
    assert_eq!(apply_computation(&ops, &[1, 2], false, &[7, 8], &mut stack, &mut block), Ok(()));
    assert_eq!(block.ops, ops);
    assert_eq!(stack.operands(), vec![v(7), v(8), v(3)]);

    // More operands than the stack holds.
    assert_eq!(
        apply_computation(&ops, &[7, 8, 3, 4], false, &[9], &mut stack, &mut block),
        Err(StackifyError::UnexpectedStackState)
    );
    assert_eq!(block.ops, ops);
    assert_eq!(stack.operands(), vec![v(7), v(8), v(3)]);
}

#[test]
fn a_computation_is_applied_only_to_its_operands() {
    let ops = vec![Op::Binary(Opcode::Sub)];
    // The operands in the wrong order.
    let mut stack = stack_of(&[2, 1, 3]);
    let mut block = Block::new();
    assert_eq!(
        apply_computation(&ops, &[1, 2], false, &[7], &mut stack, &mut block),
        Err(StackifyError::UnexpectedStackState)
    );
    assert_eq!(block.ops, vec![]);
    assert_eq!(stack.operands(), vec![v(2), v(1), v(3)]);
    // Where the order does not matter, either will do.
    let ops = vec![Op::Binary(Opcode::Add)];
    assert_eq!(apply_computation(&ops, &[1, 2], true, &[7], &mut stack, &mut block), Ok(()));
    assert_eq!(block.ops, ops);
    assert_eq!(stack.operands(), vec![v(7), v(3)]);
    // A value that is no operand on top.
    let mut stack = stack_of(&[1, 3, 2]);
    let mut block = Block::new();
    assert_eq!(
        apply_computation(&ops, &[1, 2], true, &[7], &mut stack, &mut block),
        Err(StackifyError::UnexpectedStackState)
    );
    assert!(has_operands_on_top(&[1, 3], false, &stack));
    assert!(!has_operands_on_top(&[3, 1], false, &stack));
    assert!(has_operands_on_top(&[3, 1], true, &stack));
    assert!(has_operands_on_top(&[], false, &stack));
}
