use stackify::analysis::LivenessAnalysis;
use stackify::arguments::prepare_stack_arguments;
use stackify::clearing::drop_unused_operands_at;
use stackify::error::StackifyError;
use stackify::hir::{Immediate, ProgramPoint};
use stackify::masm::{Block, Op};
use stackify::operand_stack::{Operand, OperandStack};

fn v(value: u32) -> Operand {
    Operand::Value(value)
}

fn stack_of(values: &[u32]) -> OperandStack {
    let mut stack = OperandStack::new();
    for value in values.iter().rev() {
        stack.push(v(*value));
    }
    stack
}

fn values(list: &[u32]) -> Vec<Operand> {
    list.iter().map(|value| v(*value)).collect()
}

/// Liveness for one block and one instruction.
fn liveness(at_block: &[u32], after_inst: &[u32]) -> LivenessAnalysis {
    LivenessAnalysis {
        live_at_block: vec![at_block.to_vec()],
        live_after_block: vec![vec![]],
        live_at_inst: vec![vec![]],
        live_after_inst: vec![after_inst.to_vec()],
    }
}

#[test]
fn drop_unused_keeps_what_is_used_or_live() {
    let mut stack = stack_of(&[1, 2, 3]);
    let mut block = Block::new();
    let live = liveness(&[3], &[]);
    let result =
        drop_unused_operands_at(ProgramPoint::Block(0), &[2], &mut stack, &mut block, &live);
    assert_eq!(result, Ok(()));
    assert_eq!(block.ops, vec![Op::Drop]);
    assert_eq!(stack.operands(), values(&[2, 3]));
}

#[test]
fn drop_unused_keeps_only_the_topmost_copy() {
    let mut stack = stack_of(&[1, 1, 2]);
    let mut block = Block::new();
    let live = liveness(&[], &[]);
    let result =
        drop_unused_operands_at(ProgramPoint::Block(0), &[1, 2], &mut stack, &mut block, &live);
    assert_eq!(result, Ok(()));
    assert_eq!(block.ops, vec![Op::Swap(1), Op::Drop]);
    assert_eq!(stack.operands(), values(&[1, 2]));
}

#[test]
fn drop_unused_drops_constants_and_deep_operands() {
    let mut stack = stack_of(&[1, 2, 3]);
    stack.push(Operand::Const(Immediate::I1(true)));
    let mut block = Block::new();
    let live = liveness(&[1, 2], &[]);
    let result = drop_unused_operands_at(ProgramPoint::Block(0), &[], &mut stack, &mut block, &live);
    assert_eq!(result, Ok(()));
    assert_eq!(block.ops, vec![Op::Drop, Op::Movup(2), Op::Drop]);
    assert_eq!(stack.operands(), values(&[1, 2]));
}

#[test]
fn drop_unused_fuses_four_drops() {
    let mut stack = stack_of(&[1, 2, 3, 4, 5, 6]);
    let mut block = Block::new();
    let live = liveness(&[6], &[]);
    let result = drop_unused_operands_at(ProgramPoint::Block(0), &[], &mut stack, &mut block, &live);
    assert_eq!(result, Ok(()));
    assert_eq!(block.ops, vec![Op::Dropw, Op::Drop]);
    assert_eq!(stack.operands(), values(&[6]));

    let mut stack = stack_of(&[1, 2, 3, 4]);
    let mut block = Block::new();
    let result = drop_unused_operands_at(ProgramPoint::Block(0), &[], &mut stack, &mut block, &live);
    assert_eq!(result, Ok(()));
    assert_eq!(block.ops, vec![Op::Dropw]);
    assert!(stack.is_empty());
}

#[test]
fn drop_unused_does_not_fuse_across_other_operations() {
    // 1 and 3 go, 2 stays: drop, then the drop of what is now below the top.
    let mut stack = stack_of(&[1, 2, 3]);
    let mut block = Block::new();
    let live = liveness(&[2], &[]);
    let result = drop_unused_operands_at(ProgramPoint::Block(0), &[], &mut stack, &mut block, &live);
    assert_eq!(result, Ok(()));
    assert_eq!(block.ops, vec![Op::Drop, Op::Swap(1), Op::Drop]);
    assert_eq!(stack.operands(), values(&[2]));
}

#[test]
fn drop_unused_fails_out_of_reach() {
    let kept: Vec<u32> = (0..17).collect();
    let mut all = kept.clone();
    all.push(99);
    let mut stack = stack_of(&all);
    let mut block = Block::new();
    let live = liveness(&[], &[]);
    let result =
        drop_unused_operands_at(ProgramPoint::Block(0), &kept, &mut stack, &mut block, &live);
    assert_eq!(result, Err(StackifyError::LimitExceeded));
    assert_eq!(block.ops, vec![]);
}

#[test]
fn prepare_leaves_arranged_arguments_alone() {
    let mut stack = stack_of(&[1, 2, 3]);
    let mut block = Block::new();
    let live = liveness(&[], &[]);
    assert_eq!(prepare_stack_arguments(0, &[1, 2], &mut stack, &mut block, &live), Ok(()));
    assert_eq!(block.ops, vec![]);
    assert_eq!(prepare_stack_arguments(0, &[], &mut stack, &mut block, &live), Ok(()));
    assert_eq!(block.ops, vec![]);
    assert_eq!(stack.operands(), values(&[1, 2, 3]));
}

#[test]
fn prepare_moves_a_single_argument_to_the_top() {
    let mut stack = stack_of(&[1, 2, 3]);
    let mut block = Block::new();
    let live = liveness(&[], &[]);
    assert_eq!(prepare_stack_arguments(0, &[3], &mut stack, &mut block, &live), Ok(()));
    assert_eq!(block.ops, vec![Op::Movup(2)]);
    assert_eq!(stack.operands(), values(&[3, 1, 2]));
}

#[test]
fn prepare_copies_what_is_live_after_the_branch() {
    let mut stack = stack_of(&[1, 2]);
    let mut block = Block::new();
    let live = liveness(&[], &[1]);
    assert_eq!(prepare_stack_arguments(0, &[1], &mut stack, &mut block, &live), Ok(()));
    assert_eq!(block.ops, vec![Op::Dup(0)]);
    assert_eq!(stack.operands(), values(&[1, 1, 2]));
}

#[test]
fn prepare_swaps_two_arguments() {
    let mut stack = stack_of(&[2, 1, 9]);
    let mut block = Block::new();
    let live = liveness(&[], &[]);
    assert_eq!(prepare_stack_arguments(0, &[1, 2], &mut stack, &mut block, &live), Ok(()));
    assert_eq!(block.ops, vec![Op::Swap(1)]);
    assert_eq!(stack.operands(), values(&[1, 2, 9]));
}

#[test]
fn prepare_arranges_a_rotation() {
    let mut stack = stack_of(&[2, 3, 1]);
    let mut block = Block::new();
    let live = liveness(&[], &[]);
    assert_eq!(prepare_stack_arguments(0, &[1, 2, 3], &mut stack, &mut block, &live), Ok(()));
    assert_eq!(block.ops, vec![Op::Swap(1), Op::Swap(2)]);
    assert_eq!(stack.operands(), values(&[1, 2, 3]));
}

#[test]
fn prepare_sorts_a_cycle_that_misses_the_top() {
    // The top is in place; the two below it are exchanged.
    let mut stack = stack_of(&[1, 3, 2, 9]);
    let mut block = Block::new();
    let live = liveness(&[], &[]);
    assert_eq!(prepare_stack_arguments(0, &[1, 2, 3], &mut stack, &mut block, &live), Ok(()));
    assert_eq!(block.ops, vec![Op::Swap(1), Op::Swap(2), Op::Swap(1)]);
    assert_eq!(stack.operands(), values(&[1, 2, 3, 9]));
}

#[test]
fn prepare_sorts_two_cycles() {
    let mut stack = stack_of(&[2, 1, 4, 3, 9]);
    let mut block = Block::new();
    let live = liveness(&[], &[]);
    assert_eq!(prepare_stack_arguments(0, &[1, 2, 3, 4], &mut stack, &mut block, &live), Ok(()));
    assert_eq!(block.ops, vec![Op::Swap(1), Op::Swap(2), Op::Swap(3), Op::Swap(2)]);
    assert_eq!(stack.operands(), values(&[1, 2, 3, 4, 9]));
}

#[test]
fn prepare_fetches_what_is_below_the_window() {
    let mut stack = stack_of(&[1, 2, 9, 3]);
    let mut block = Block::new();
    let live = liveness(&[], &[]);
    assert_eq!(prepare_stack_arguments(0, &[1, 2, 3], &mut stack, &mut block, &live), Ok(()));
    assert_eq!(block.ops, vec![Op::Movup(3), Op::Movup(2), Op::Movup(2)]);
    assert_eq!(stack.operands(), values(&[1, 2, 3, 9]));
}

#[test]
fn fetching_arguments_one_by_one() {
    let mut stack = stack_of(&[2, 3, 1]);
    let mut block = Block::new();
    let live = liveness(&[], &[]);
    assert_eq!(
        stackify::arguments::fetch_arguments(0, &[1, 2, 3], &mut stack, &mut block, &live),
        Ok(())
    );
    assert_eq!(block.ops, vec![Op::Swap(1), Op::Swap(1), Op::Movup(2)]);
    assert_eq!(stack.operands(), values(&[1, 2, 3]));
}

#[test]
fn prepare_gives_each_use_of_a_value_an_operand() {
    let mut stack = stack_of(&[1, 9]);
    let mut block = Block::new();
    let live = liveness(&[], &[]);
    assert_eq!(prepare_stack_arguments(0, &[1, 1], &mut stack, &mut block, &live), Ok(()));
    assert_eq!(block.ops, vec![Op::Dup(0), Op::Swap(1)]);
    assert_eq!(stack.operands(), values(&[1, 1, 9]));
}

#[test]
fn prepare_fails_for_a_value_that_is_not_there() {
    let mut stack = stack_of(&[1, 2]);
    let mut block = Block::new();
    let live = liveness(&[], &[]);
    assert_eq!(
        prepare_stack_arguments(0, &[7], &mut stack, &mut block, &live),
        Err(StackifyError::ValueNotFound(7))
    );
}

#[test]
fn prepare_fails_out_of_reach() {
    let all: Vec<u32> = (0..20).collect();
    let mut stack = stack_of(&all);
    let mut block = Block::new();
    let live = liveness(&[], &[]);
    assert_eq!(
        prepare_stack_arguments(0, &[19], &mut stack, &mut block, &live),
        Err(StackifyError::LimitExceeded)
    );
}
