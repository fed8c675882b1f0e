use stackify::hir::{Immediate, Value};
use stackify::masm::{Block, Felt, Op};
use stackify::operand_stack::{Operand, OperandStack};
use stackify::primitives::{
    copy_operand_to_position, drop_operand_at_position, move_operand_to_position, truncate_stack,
};

fn stack_of(values: &[Value]) -> OperandStack {
    let mut stack = OperandStack::new();
    for value in values.iter().rev() {
        stack.push(Operand::Value(*value));
    }
    stack
}

fn names(stack: &OperandStack) -> Vec<Operand> {
    stack.operands()
}

fn values(list: &[Value]) -> Vec<Operand> {
    list.iter().map(|v| Operand::Value(*v)).collect()
}

#[test]
fn copy_to_top_is_a_dup() {
    let mut stack = stack_of(&[10, 11, 12]);
    let mut block = Block::new();
    copy_operand_to_position(2, 0, false, &mut stack, &mut block);
    assert_eq!(block.ops, vec![Op::Dup(2)]);
    assert_eq!(names(&stack), values(&[12, 10, 11, 12]));
}

#[test]
fn copy_below_top_swaps_unless_commutative() {
    let mut stack = stack_of(&[10, 11, 12]);
    let mut block = Block::new();
    copy_operand_to_position(2, 1, false, &mut stack, &mut block);
    assert_eq!(block.ops, vec![Op::Dup(2), Op::Swap(1)]);
    assert_eq!(names(&stack), values(&[10, 12, 11, 12]));

    let mut stack = stack_of(&[10, 11, 12]);
    let mut block = Block::new();
    copy_operand_to_position(2, 1, true, &mut stack, &mut block);
    assert_eq!(block.ops, vec![Op::Dup(2)]);
    assert_eq!(names(&stack), values(&[12, 10, 11, 12]));
}

#[test]
fn copy_deeper_moves_the_copy_down() {
    let mut stack = stack_of(&[10, 11, 12, 13]);
    let mut block = Block::new();
    copy_operand_to_position(0, 3, false, &mut stack, &mut block);
    assert_eq!(block.ops, vec![Op::Dup(0), Op::Movdn(3)]);
    assert_eq!(names(&stack), values(&[10, 11, 12, 10, 13]));
}

#[test]
fn move_in_place_writes_nothing() {
    let mut stack = stack_of(&[10, 11, 12]);
    let mut block = Block::new();
    move_operand_to_position(1, 1, false, &mut stack, &mut block);
    assert_eq!(block.ops, vec![]);
    assert_eq!(names(&stack), values(&[10, 11, 12]));
}

#[test]
fn move_in_place_writes_nothing_at_any_depth() {
    let deep: Vec<u32> = (0..20).collect();
    let mut stack = stack_of(&deep);
    let mut block = Block::new();
    move_operand_to_position(18, 18, false, &mut stack, &mut block);
    move_operand_to_position(19, 19, true, &mut stack, &mut block);
    assert_eq!(block.ops, vec![]);
    assert_eq!(names(&stack), values(&deep));
}

#[test]
fn move_between_top_two_swaps_unless_commutative() {
    let mut stack = stack_of(&[10, 11, 12]);
    let mut block = Block::new();
    move_operand_to_position(1, 0, false, &mut stack, &mut block);
    assert_eq!(block.ops, vec![Op::Swap(1)]);
    assert_eq!(names(&stack), values(&[11, 10, 12]));

    let mut stack = stack_of(&[10, 11, 12]);
    let mut block = Block::new();
    move_operand_to_position(0, 1, true, &mut stack, &mut block);
    assert_eq!(block.ops, vec![]);
    assert_eq!(names(&stack), values(&[10, 11, 12]));
}

#[test]
fn move_to_top_is_a_movup() {
    let mut stack = stack_of(&[10, 11, 12]);
    let mut block = Block::new();
    move_operand_to_position(2, 0, false, &mut stack, &mut block);
    assert_eq!(block.ops, vec![Op::Movup(2)]);
    assert_eq!(names(&stack), values(&[12, 10, 11]));
}

#[test]
fn move_below_top_swaps_after_the_movup() {
    let mut stack = stack_of(&[10, 11, 12]);
    let mut block = Block::new();
    move_operand_to_position(2, 1, false, &mut stack, &mut block);
    assert_eq!(block.ops, vec![Op::Movup(2), Op::Swap(1)]);
    assert_eq!(names(&stack), values(&[10, 12, 11]));

    let mut stack = stack_of(&[10, 11, 12]);
    let mut block = Block::new();
    move_operand_to_position(2, 1, true, &mut stack, &mut block);
    assert_eq!(block.ops, vec![Op::Movup(2)]);
    assert_eq!(names(&stack), values(&[12, 10, 11]));
}

#[test]
fn move_deeper_is_movup_then_movdn() {
    let mut stack = stack_of(&[10, 11, 12, 13]);
    let mut block = Block::new();
    move_operand_to_position(3, 2, false, &mut stack, &mut block);
    assert_eq!(block.ops, vec![Op::Movup(3), Op::Movdn(2)]);
    assert_eq!(names(&stack), values(&[10, 11, 13, 12]));
}

#[test]
fn drop_at_each_kind_of_position() {
    let mut stack = stack_of(&[10, 11, 12]);
    let mut block = Block::new();
    drop_operand_at_position(0, &mut stack, &mut block);
    assert_eq!(block.ops, vec![Op::Drop]);
    assert_eq!(names(&stack), values(&[11, 12]));

    let mut stack = stack_of(&[10, 11, 12]);
    let mut block = Block::new();
    drop_operand_at_position(1, &mut stack, &mut block);
    assert_eq!(block.ops, vec![Op::Swap(1), Op::Drop]);
    assert_eq!(names(&stack), values(&[10, 12]));

    let mut stack = stack_of(&[10, 11, 12]);
    let mut block = Block::new();
    drop_operand_at_position(2, &mut stack, &mut block);
    assert_eq!(block.ops, vec![Op::Movup(2), Op::Drop]);
    assert_eq!(names(&stack), values(&[10, 11]));
}

#[test]
fn truncate_drops_words_then_singles() {
    let mut stack = stack_of(&[1, 2, 3, 4, 5, 6, 7, 8, 9, 10]);
    let mut block = Block::new();
    truncate_stack(1, &mut stack, &mut block);
    assert_eq!(block.ops, vec![Op::Dropw, Op::Dropw, Op::Drop]);
    assert_eq!(names(&stack), values(&[10]));
}

#[test]
fn truncate_leaves_a_short_stack_alone() {
    let mut stack = stack_of(&[1, 2]);
    let mut block = Block::new();
    truncate_stack(2, &mut stack, &mut block);
    assert_eq!(block.ops, vec![]);
    truncate_stack(5, &mut stack, &mut block);
    assert_eq!(block.ops, vec![]);
    assert_eq!(names(&stack), values(&[1, 2]));
}

#[test]
fn felt_is_reduced() {
    assert_eq!(Felt::new(0xFFFF_FFFF_0000_0001), Felt::zero());
    assert_eq!(Felt::new(0xFFFF_FFFF_0000_0002), Felt::one());
    assert_eq!(Felt::new(7).as_int(), 7);
    let _ = Immediate::Felt(Felt::new(3));
}
