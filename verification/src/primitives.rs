//! The stack manipulations that the emitter is built from: each writes a short
//! run of operations and brings the model of the operand stack up to date.

use vstd::prelude::*;
use crate::masm::{self, Op, MAX_OPERAND_INDEX};
use crate::masm::lemma_grows_same;
use crate::operand_stack::{
    all_applicable, apply, apply_all, balanced, dup_at, lemma_apply_all_concat, lemma_apply_one,
    lemma_apply_two, lemma_wrote_manipulations, movdn_at, movup_at, swap_at, Entry, OperandStack,
};

verus! {

/// The operations that copy the operand at position `n` to position `m`.
/// Where the order of the top two operands is free, a copy meant for
/// position 1 is left on top.
pub open spec fn copy_ops(n: int, m: int, flexible: bool) -> Seq<Op> {
    if m == 0 || (m == 1 && flexible) {
        seq![Op::Dup(n as u8)]
    } else if m == 1 {
        seq![Op::Dup(n as u8), Op::Swap(1)]
    } else {
        seq![Op::Dup(n as u8), Op::Movdn(m as u8)]
    }
}

/// The operations that move the operand at position `n` to position `m`.
/// Where the order of the top two operands is free, an operand that is among
/// them and meant to be is left alone, and one fetched for position 1 is left
/// on top.
pub open spec fn move_ops(n: int, m: int, flexible: bool) -> Seq<Op> {
    if n == m {
        Seq::empty()
    } else if n <= 1 && m <= 1 {
        if flexible {
            Seq::empty()
        } else {
            seq![Op::Swap(1)]
        }
    } else if m == 0 || (m == 1 && flexible) {
        seq![Op::Movup(n as u8)]
    } else if m == 1 {
        seq![Op::Movup(n as u8), Op::Swap(1)]
    } else {
        seq![Op::Movup(n as u8), Op::Movdn(m as u8)]
    }
}

/// The operations that discard the operand at position `n`.
pub open spec fn drop_ops(n: int) -> Seq<Op> {
    if n == 0 {
        seq![Op::Drop]
    } else if n == 1 {
        seq![Op::Swap(1), Op::Drop]
    } else {
        seq![Op::Movup(n as u8), Op::Drop]
    }
}

/// The operations that discard the top `excess` operands: as many four-fold
/// drops as fit, then single ones.
pub open spec fn truncate_ops(excess: nat) -> Seq<Op> {
    Seq::new(excess / 4, |i: int| Op::Dropw) + Seq::new(excess % 4, |i: int| Op::Drop)
}

/// Discarding the same operation `count` times takes `count` times as many
/// operands off.
pub proof fn lemma_apply_drops(op: Op, width: nat, count: nat, stack: Seq<Entry>)
    requires
        (op == Op::Drop && width == 1) || (op == Op::Dropw && width == 4),
        width * count <= stack.len(),
    ensures
        all_applicable(Seq::new(count, |i: int| op), stack),
        apply_all(Seq::new(count, |i: int| op), stack) == stack.skip((width * count) as int),
    decreases count,
{
    let ops = Seq::new(count, |i: int| op);
    if count == 0 {
        assert(stack.skip(0) =~= stack);
    } else {
        assert(width * count == width * (count - 1) + width) by (nonlinear_arith);
        assert(ops.skip(1) =~= Seq::new((count - 1) as nat, |i: int| op));
        lemma_apply_drops(op, width, (count - 1) as nat, apply(op, stack));
        assert(stack.skip(width as int).skip((width * (count - 1)) as int) =~= stack.skip(
            (width * count) as int,
        ));
    }
}

/// Truncation takes exactly the excess off.
pub proof fn lemma_apply_truncate(excess: nat, stack: Seq<Entry>)
    requires
        excess <= stack.len(),
    ensures
        all_applicable(truncate_ops(excess), stack),
        apply_all(truncate_ops(excess), stack) == stack.skip(excess as int),
{
    let words = Seq::new(excess / 4, |i: int| Op::Dropw);
    let singles = Seq::new(excess % 4, |i: int| Op::Drop);
    lemma_apply_drops(Op::Dropw, 4, excess / 4, stack);
    let rest = stack.skip((4 * (excess / 4)) as int);
    lemma_apply_drops(Op::Drop, 1, excess % 4, rest);
    lemma_apply_all_concat(words, singles, stack);
    assert(rest.skip((1 * (excess % 4)) as int) =~= stack.skip(excess as int));
}

/// Copies the operand at position `n` so that the copy stands at position
/// `m`. With `is_commutative_binary_operand` a copy meant for position 1 may
/// stay on top.
pub fn copy_operand_to_position(
    n: usize,
    m: usize,
    is_commutative_binary_operand: bool,
    stack: &mut OperandStack,
    block: &mut masm::Block,
)
    requires
        n < old(stack)@.len(),
        m <= old(stack)@.len(),
        n <= MAX_OPERAND_INDEX,
        m <= MAX_OPERAND_INDEX,
    ensures
        final(block)@ == old(block)@ + copy_ops(n as int, m as int, is_commutative_binary_operand),
        all_applicable(
            copy_ops(n as int, m as int, is_commutative_binary_operand),
            old(stack)@,
        ),
        final(stack)@ == apply_all(
            copy_ops(n as int, m as int, is_commutative_binary_operand),
            old(stack)@,
        ),
        final(stack)@ == (if m == 0 || (m == 1 && is_commutative_binary_operand) {
            dup_at(old(stack)@, n as int)
        } else {
            movdn_at(dup_at(old(stack)@, n as int), m as int)
        }),
        balanced(final(block)@, old(block)@, final(stack)@, old(stack)@),
{
    let ghost ops = copy_ops(n as int, m as int, is_commutative_binary_operand);
    let ghost before = stack@;
    block.push(Op::Dup(n as u8));
    stack.dup(n);
    if m == 0 || (m == 1 && is_commutative_binary_operand) {
        proof {
            lemma_apply_one(Op::Dup(n as u8), before);
            assert(block@ =~= old(block)@ + ops);
        }
    } else if m == 1 {
        block.push(Op::Swap(1));
        stack.swap(1);
        proof {
            lemma_apply_two(Op::Dup(n as u8), Op::Swap(1), before);
            assert(block@ =~= old(block)@ + ops);
            assert(swap_at(dup_at(before, n as int), 1) =~= movdn_at(dup_at(before, n as int), 1));
        }
    } else {
        block.push(Op::Movdn(m as u8));
        stack.movdn(m);
        proof {
            lemma_apply_two(Op::Dup(n as u8), Op::Movdn(m as u8), before);
            assert(block@ =~= old(block)@ + ops);
        }
    }
    proof {
        lemma_wrote_manipulations(old(block)@, ops, before);
    }
}

/// Moves the operand at position `n` to position `m`. With
/// `is_commutative_binary_operand` the order of the top two operands is taken
/// to be free. An operand that is where it is wanted is left alone, however
/// deep it lies; any other has to be within reach, and so has the position.
pub fn move_operand_to_position(
    n: usize,
    m: usize,
    is_commutative_binary_operand: bool,
    stack: &mut OperandStack,
    block: &mut masm::Block,
)
    requires
        n < old(stack)@.len(),
        m < old(stack)@.len(),
        n != m ==> n <= MAX_OPERAND_INDEX && m <= MAX_OPERAND_INDEX,
    ensures
        final(block)@ == old(block)@ + move_ops(n as int, m as int, is_commutative_binary_operand),
        all_applicable(
            move_ops(n as int, m as int, is_commutative_binary_operand),
            old(stack)@,
        ),
        final(stack)@ == apply_all(
            move_ops(n as int, m as int, is_commutative_binary_operand),
            old(stack)@,
        ),
        final(stack)@.len() == old(stack)@.len(),
        final(stack)@ == (if n == m || (n <= 1 && m <= 1 && is_commutative_binary_operand) {
            old(stack)@
        } else if m == 1 && is_commutative_binary_operand {
            movup_at(old(stack)@, n as int)
        } else {
            movdn_at(movup_at(old(stack)@, n as int), m as int)
        }),
        balanced(final(block)@, old(block)@, final(stack)@, old(stack)@),
{
    let ghost ops = move_ops(n as int, m as int, is_commutative_binary_operand);
    let ghost before = stack@;
    if n == m {
        assert(block@ =~= old(block)@ + ops);
    } else if n <= 1 && m <= 1 {
        if !is_commutative_binary_operand {
            block.push(Op::Swap(1));
            stack.swap(1);
            proof {
                lemma_apply_one(Op::Swap(1), before);
                assert(block@ =~= old(block)@ + ops);
                assert(swap_at(before, 1) =~= movdn_at(movup_at(before, n as int), m as int));
            }
        } else {
            assert(block@ =~= old(block)@ + ops);
        }
    } else if m == 0 || (m == 1 && is_commutative_binary_operand) {
        block.push(Op::Movup(n as u8));
        stack.movup(n);
        proof {
            lemma_apply_one(Op::Movup(n as u8), before);
            assert(block@ =~= old(block)@ + ops);
            assert(movup_at(before, n as int) =~= movdn_at(movup_at(before, n as int), 0));
        }
    } else if m == 1 {
        block.push(Op::Movup(n as u8));
        block.push(Op::Swap(1));
        stack.movup(n);
        stack.swap(1);
        proof {
            lemma_apply_two(Op::Movup(n as u8), Op::Swap(1), before);
            assert(block@ =~= old(block)@ + ops);
            assert(swap_at(movup_at(before, n as int), 1) =~= movdn_at(
                movup_at(before, n as int),
                1,
            ));
        }
    } else {
        block.push(Op::Movup(n as u8));
        block.push(Op::Movdn(m as u8));
        stack.movup(n);
        stack.movdn(m);
        proof {
            lemma_apply_two(Op::Movup(n as u8), Op::Movdn(m as u8), before);
            assert(block@ =~= old(block)@ + ops);
        }
    }
    proof {
        if ops.len() == 0 {
            assert(block@ =~= old(block)@ + ops);
        }
        lemma_wrote_manipulations(old(block)@, ops, before);
    }
}

/// Discards operands from the top until `n` are left; a stack that holds no
/// more than `n` is left alone.
pub fn truncate_stack(n: usize, stack: &mut OperandStack, block: &mut masm::Block)
    ensures
        old(stack)@.len() <= n ==> final(stack)@ == old(stack)@ && final(block)@ == old(block)@,
        old(stack)@.len() > n ==> {
            let excess = (old(stack)@.len() - n) as nat;
            &&& final(block)@ == old(block)@ + truncate_ops(excess)
            &&& all_applicable(truncate_ops(excess), old(stack)@)
            &&& final(stack)@ == apply_all(truncate_ops(excess), old(stack)@)
            &&& final(stack)@ == old(stack)@.skip(excess as int)
        },
        balanced(final(block)@, old(block)@, final(stack)@, old(stack)@),
{
    let len = stack.len();
    proof {
        lemma_grows_same(block@);
    }
    if len > n {
        let m: usize = len - n;
        let w: usize = m / 4;
        let x: usize = m % 4;
        block.push_n(Op::Dropw, w);
        block.push_n(Op::Drop, x);
        stack.dropn(m);
        proof {
            lemma_apply_truncate(m as nat, old(stack)@);
            assert(block@ =~= old(block)@ + truncate_ops(m as nat));
            lemma_wrote_manipulations(old(block)@, truncate_ops(m as nat), old(stack)@);
        }
    }
}

/// Discards the operand at position `n`.
pub fn drop_operand_at_position(n: usize, stack: &mut OperandStack, block: &mut masm::Block)
    requires
        n < old(stack)@.len(),
        n <= MAX_OPERAND_INDEX,
    ensures
        final(block)@ == old(block)@ + drop_ops(n as int),
        all_applicable(drop_ops(n as int), old(stack)@),
        final(stack)@ == apply_all(drop_ops(n as int), old(stack)@),
        final(stack)@ == old(stack)@.remove(n as int),
        balanced(final(block)@, old(block)@, final(stack)@, old(stack)@),
{
    let ghost before = stack@;
    if n == 0 {
        block.push(Op::Drop);
        stack.pop();
        proof {
            lemma_apply_one(Op::Drop, before);
            assert(block@ =~= old(block)@ + drop_ops(n as int));
            assert(before.skip(1) =~= before.remove(0));
        }
    } else if n == 1 {
        block.push(Op::Swap(1));
        block.push(Op::Drop);
        stack.swap(1);
        stack.pop();
        proof {
            lemma_apply_two(Op::Swap(1), Op::Drop, before);
            assert(block@ =~= old(block)@ + drop_ops(n as int));
            assert(swap_at(before, 1).skip(1) =~= before.remove(1));
        }
    } else {
        block.push(Op::Movup(n as u8));
        block.push(Op::Drop);
        stack.movup(n);
        stack.pop();
        proof {
            lemma_apply_two(Op::Movup(n as u8), Op::Drop, before);
            assert(block@ =~= old(block)@ + drop_ops(n as int));
            assert(movup_at(before, n as int).skip(1) =~= before.remove(n as int));
        }
    }
    proof {
        lemma_wrote_manipulations(old(block)@, drop_ops(n as int), before);
    }
}

} // verus!
