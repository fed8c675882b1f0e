use stackify::hir::Immediate;
use stackify::operand_stack::{Entry, Operand, OperandStack};

fn v(value: u32) -> Operand {
    Operand::Value(value)
}

fn stack_of(values: &[u32]) -> OperandStack {
    let mut stack = OperandStack::new();
    for value in values.iter().rev() {
        stack.push(v(*value));
    }
    stack
}

#[test]
fn push_puts_on_top_and_pop_takes_from_the_top() {
    let mut stack = OperandStack::new();
    assert!(stack.is_empty());
    assert_eq!(stack.peek(), None);
    assert_eq!(stack.pop(), None);
    stack.push(v(1));
    stack.push(Operand::Const(Immediate::U32(9)));
    assert_eq!(stack.len(), 2);
    assert_eq!(stack.peek(), Some(Operand::Const(Immediate::U32(9))));
    assert_eq!(stack.pop(), Some(Operand::Const(Immediate::U32(9))));
    assert_eq!(stack.pop(), Some(v(1)));
    assert!(stack.is_empty());
}

#[test]
fn find_returns_the_smallest_position() {
    let stack = stack_of(&[5, 6, 5, 7]);
    assert_eq!(stack.find(5), Some(0));
    assert_eq!(stack.find(6), Some(1));
    assert_eq!(stack.find(7), Some(3));
    assert_eq!(stack.find(8), None);
    assert_eq!(stack.find_from(5, 1), Some(2));
    assert_eq!(stack.find_from(5, 3), None);
    assert_eq!(stack.find_from(5, 9), None);
}

#[test]
fn rename_keeps_the_earlier_name() {
    let mut stack = stack_of(&[5, 6]);
    stack.rename(0, 50);
    assert_eq!(stack.operands(), vec![v(50), v(6)]);
    assert_eq!(stack.get(0), Entry { operand: v(50), alias: Some(5) });
    assert_eq!(stack.find(50), Some(0));
    assert_eq!(stack.find(5), Some(0));
    // Renaming to the same name changes nothing.
    stack.rename(1, 6);
    assert_eq!(stack.get(1), Entry { operand: v(6), alias: None });
    // A constant gets a name and has no earlier one.
    stack.push(Operand::Const(Immediate::I1(true)));
    stack.rename(0, 9);
    assert_eq!(stack.get(0), Entry { operand: v(9), alias: None });
}

#[test]
fn positional_operations() {
    let mut stack = stack_of(&[1, 2, 3, 4]);
    stack.dup(2);
    assert_eq!(stack.operands(), vec![v(3), v(1), v(2), v(3), v(4)]);
    stack.swap(4);
    assert_eq!(stack.operands(), vec![v(4), v(1), v(2), v(3), v(3)]);
    stack.movup(2);
    assert_eq!(stack.operands(), vec![v(2), v(4), v(1), v(3), v(3)]);
    stack.movdn(3);
    assert_eq!(stack.operands(), vec![v(4), v(1), v(3), v(2), v(3)]);
    stack.dropn(2);
    assert_eq!(stack.operands(), vec![v(3), v(2), v(3)]);
    stack.push_n(v(0), 2);
    stack.dropw();
    assert_eq!(stack.operands(), vec![v(3)]);
}

#[test]
fn a_copy_is_independent() {
    let mut stack = stack_of(&[1, 2]);
    let copy = stack.clone();
    stack.pop();
    assert_eq!(copy.operands(), vec![v(1), v(2)]);
    assert_eq!(stack.operands(), vec![v(2)]);
}
