//! Clearing the operand stack for a branch: what the destination does not
//! need is discarded.

use vstd::prelude::*;
use crate::analysis::{contains_value, LivenessAnalysis};
use crate::collections::{
    buffered, id_set_insert, id_set_new, op_buffer_clear, op_buffer_get, op_buffer_len,
    op_buffer_new, op_buffer_push, OpBuffer,
};
use crate::error::StackifyError;
use crate::hir::{ProgramPoint, Value};
use crate::masm::{self, grows, lemma_grows_same, Op, MAX_OPERAND_INDEX};
use crate::operand_stack::{
    all_applicable, apply_all, balanced, lemma_apply_all_concat, lemma_apply_one,
    lemma_apply_two, lemma_wrote_manipulations, movup_at, swap_at, Entry, Operand, OperandStack,
};
use crate::primitives::{drop_ops, lemma_apply_drops};

verus! {

/// Whether the entry at position `i` stays when the stack is cleared for the
/// program point `pp`: it is a value that `used` lists or that is live
/// there, and no position above it holds the same value.
pub open spec fn retained(
    stack: Seq<Entry>,
    i: int,
    used: Seq<Value>,
    liveness: &LivenessAnalysis,
    pp: ProgramPoint,
) -> bool {
    match stack[i].operand {
        Operand::Value(v) => (used.contains(v) || liveness.live_at(v, pp)) && forall|j: int|
            0 <= j < i ==> stack[j].operand != Operand::Value(v),
        Operand::Const(_) => false,
    }
}

/// The entries at positions `from` and below that stay, in their order.
pub open spec fn retain_from(
    stack: Seq<Entry>,
    from: int,
    used: Seq<Value>,
    liveness: &LivenessAnalysis,
    pp: ProgramPoint,
) -> Seq<Entry>
    decreases stack.len() - from,
{
    if from < 0 || from >= stack.len() {
        Seq::empty()
    } else if retained(stack, from, used, liveness, pp) {
        seq![stack[from]] + retain_from(stack, from + 1, used, liveness, pp)
    } else {
        retain_from(stack, from + 1, used, liveness, pp)
    }
}

/// The operations that discard, top down, each entry at positions `from`
/// and below that does not stay, when `above` entries stay above `from`.
pub open spec fn drop_plan(
    stack: Seq<Entry>,
    from: int,
    above: int,
    used: Seq<Value>,
    liveness: &LivenessAnalysis,
    pp: ProgramPoint,
) -> Seq<Op>
    decreases stack.len() - from,
{
    if from < 0 || from >= stack.len() {
        Seq::empty()
    } else if retained(stack, from, used, liveness, pp) {
        drop_plan(stack, from + 1, above + 1, used, liveness, pp)
    } else {
        drop_ops(above) + drop_plan(stack, from + 1, above, used, liveness, pp)
    }
}

/// Whether every entry that `drop_plan` discards lies within reach of a stack
/// operation when its turn comes.
pub open spec fn drops_in_reach(
    stack: Seq<Entry>,
    from: int,
    above: int,
    used: Seq<Value>,
    liveness: &LivenessAnalysis,
    pp: ProgramPoint,
) -> bool
    decreases stack.len() - from,
{
    if from < 0 || from >= stack.len() {
        true
    } else if retained(stack, from, used, liveness, pp) {
        drops_in_reach(stack, from + 1, above + 1, used, liveness, pp)
    } else {
        above <= MAX_OPERAND_INDEX && drops_in_reach(stack, from + 1, above, used, liveness, pp)
    }
}

/// `ops` with every four drops in a row, after `pending` drops that are
/// still held back, replaced by one four-fold drop.
pub open spec fn fuse_drops(ops: Seq<Op>, pending: nat) -> Seq<Op>
    decreases ops.len(),
{
    if ops.len() == 0 {
        Seq::new(pending, |i: int| Op::Drop)
    } else if ops[0] == Op::Drop {
        if pending >= 3 {
            seq![Op::Dropw] + fuse_drops(ops.skip(1), 0)
        } else {
            fuse_drops(ops.skip(1), pending + 1)
        }
    } else {
        Seq::new(pending, |i: int| Op::Drop).push(ops[0]) + fuse_drops(ops.skip(1), 0)
    }
}

/// Fusing drops changes nothing of what the operations make of a stack.
pub proof fn lemma_fuse_drops(ops: Seq<Op>, pending: nat, stack: Seq<Entry>)
    requires
        pending <= 3,
        all_applicable(Seq::new(pending, |i: int| Op::Drop) + ops, stack),
    ensures
        all_applicable(fuse_drops(ops, pending), stack),
        apply_all(fuse_drops(ops, pending), stack) == apply_all(
            Seq::new(pending, |i: int| Op::Drop) + ops,
            stack,
        ),
    decreases ops.len(),
{
    let held = Seq::new(pending, |i: int| Op::Drop);
    lemma_apply_all_concat(held, ops, stack);
    if ops.len() == 0 {
        assert(held + ops =~= held);
    } else {
        let rest = ops.skip(1);
        assert(ops =~= seq![ops[0]] + rest);
        assert(held + ops =~= (held + seq![ops[0]]) + rest);
        lemma_apply_all_concat(held + seq![ops[0]], rest, stack);
        if ops[0] == Op::Drop {
            let more = Seq::new(pending + 1, |i: int| Op::Drop);
            assert(held + seq![ops[0]] =~= more);
            if pending >= 3 {
                // Four single drops take off what one four-fold drop does.
                lemma_apply_all_concat(more, rest, stack);
                assert(stack.len() >= 4) by {
                    if stack.len() < 4 {
                        lemma_drops_need_depth(4, stack);
                    }
                }
                lemma_apply_drops(Op::Drop, 1, 4, stack);
                lemma_apply_one(Op::Dropw, stack);
                lemma_apply_all_concat(seq![Op::Dropw], rest, stack);
                assert(Seq::new(0, |i: int| Op::Drop) + rest =~= rest);
                lemma_fuse_drops(rest, 0, stack.skip(4));
                lemma_apply_all_concat(seq![Op::Dropw], fuse_drops(rest, 0), stack);
            } else {
                assert(more + rest =~= held + ops);
                lemma_fuse_drops(rest, pending + 1, stack);
            }
        } else {
            let flushed = held.push(ops[0]);
            assert(flushed =~= held + seq![ops[0]]);
            let mid = apply_all(flushed, stack);
            assert(Seq::new(0, |i: int| Op::Drop) + rest =~= rest);
            lemma_fuse_drops(rest, 0, mid);
            lemma_apply_all_concat(flushed, fuse_drops(rest, 0), stack);
        }
    }
}

/// A run of single drops finds the stack deep enough only if the stack holds
/// as many entries.
pub proof fn lemma_drops_need_depth(count: nat, stack: Seq<Entry>)
    requires
        stack.len() < count,
    ensures
        !all_applicable(Seq::new(count, |i: int| Op::Drop), stack),
    decreases count,
{
    let ops = Seq::new(count, |i: int| Op::Drop);
    if stack.len() > 0 {
        assert(ops.skip(1) =~= Seq::new((count - 1) as nat, |i: int| Op::Drop));
        lemma_drops_need_depth((count - 1) as nat, stack.skip(1));
    }
}

/// Writes what `buffer` holds to `block`, oldest first.
fn write_buffer(buffer: &OpBuffer, block: &mut masm::Block)
    ensures
        final(block)@ == old(block)@ + buffered(*buffer),
{
    let len = op_buffer_len(buffer);
    let mut i: usize = 0;
    assert(block@ =~= old(block)@ + buffered(*buffer).take(0));
    while i < len
        invariant
            i <= len,
            len == buffered(*buffer).len(),
            block@ == old(block)@ + buffered(*buffer).take(i as int),
        decreases len - i,
    {
        block.push(op_buffer_get(buffer, i));
        assert(block@ =~= old(block)@ + buffered(*buffer).take(i + 1));
        i = i + 1;
    }
    assert(buffered(*buffer).take(len as int) =~= buffered(*buffer));
}

/// Writes `ops` to `block` with every four drops in a row fused into one
/// four-fold drop: drops are held back, up to three of them, until it is
/// known what follows them.
pub fn emit_fused(ops: &OpBuffer, block: &mut masm::Block)
    ensures
        final(block)@ == old(block)@ + fuse_drops(buffered(*ops), 0),
{
    let len = op_buffer_len(ops);
    let ghost all = buffered(*ops);
    let mut held = op_buffer_new();
    let mut i: usize = 0;
    assert(all.skip(0) =~= all);
    assert(buffered(held) =~= Seq::new(0, |j: int| Op::Drop));
    while i < len
        invariant
            i <= len,
            len == all.len(),
            all == buffered(*ops),
            buffered(held).len() <= 3,
            buffered(held) == Seq::new(buffered(held).len(), |j: int| Op::Drop),
            block@ + fuse_drops(all.skip(i as int), buffered(held).len()) == old(block)@
                + fuse_drops(all, 0),
        decreases len - i,
    {
        let op = op_buffer_get(ops, i);
        let ghost before = block@;
        let ghost pending = buffered(held).len();
        let ghost tail = all.skip(i as int);
        assert(tail[0] == op);
        assert(tail.skip(1) =~= all.skip(i + 1));
        match op {
            Op::Drop => {
                if op_buffer_len(&held) >= 3 {
                    block.push(Op::Dropw);
                    op_buffer_clear(&mut held);
                    assert(block@ + fuse_drops(tail.skip(1), 0) =~= before + (seq![Op::Dropw]
                        + fuse_drops(tail.skip(1), 0)));
                } else {
                    op_buffer_push(&mut held, op);
                    assert(buffered(held) =~= Seq::new(pending + 1, |j: int| Op::Drop));
                }
            },
            _ => {
                write_buffer(&held, block);
                op_buffer_clear(&mut held);
                block.push(op);
                assert(block@ + fuse_drops(tail.skip(1), 0) =~= before + (Seq::new(
                    pending,
                    |j: int| Op::Drop,
                ).push(op) + fuse_drops(tail.skip(1), 0)));
            },
        }
        assert(buffered(held) =~= Seq::new(buffered(held).len(), |j: int| Op::Drop));
        i = i + 1;
    }
    write_buffer(&held, block);
    assert(all.skip(len as int).len() == 0);
}

/// Clears the stack for a branch to `pp`: discards, top down, every constant,
/// every value that is neither listed in `used` nor live at `pp`, and every
/// copy of a value but the topmost. Drops in a row are written four at a
/// time. Fails, with nothing written and the stack as it was, if an operand
/// to discard lies deeper than a stack operation can reach.
pub fn drop_unused_operands_at(
    pp: ProgramPoint,
    used: &[Value],
    stack: &mut OperandStack,
    block: &mut masm::Block,
    liveness: &LivenessAnalysis,
) -> (result: Result<(), StackifyError>)
    ensures
        drops_in_reach(old(stack)@, 0, 0, used@, liveness, pp) <==> result is Ok,
        result is Err ==> result == Err::<(), StackifyError>(StackifyError::LimitExceeded)
            && final(block)@ == old(block)@ && final(stack)@ == old(stack)@,
        result is Ok ==> {
            let plan = drop_plan(old(stack)@, 0, 0, used@, liveness, pp);
            &&& final(stack)@ == retain_from(old(stack)@, 0, used@, liveness, pp)
            &&& final(block)@ == old(block)@ + fuse_drops(plan, 0)
            &&& all_applicable(fuse_drops(plan, 0), old(stack)@)
            &&& apply_all(fuse_drops(plan, 0), old(stack)@) == final(stack)@
        },
        balanced(final(block)@, old(block)@, final(stack)@, old(stack)@),
{
    let ghost start = stack@;
    let entered_with = stack.clone();
    let mut index: usize = 0;
    let mut ops = op_buffer_new();
    let mut seen = id_set_new();
    let ghost mut k: int = 0;
    while index < stack.len()
        invariant
            start == old(stack)@,
            0 <= k <= start.len(),
            index <= stack@.len(),
            stack@.len() - index == start.len() - k,
            stack@.skip(index as int) == start.skip(k),
            stack@.take(index as int) + retain_from(start, k, used@, liveness, pp) == retain_from(
                start,
                0,
                used@,
                liveness,
                pp,
            ),
            buffered(ops) + drop_plan(start, k, index as int, used@, liveness, pp) == drop_plan(
                start,
                0,
                0,
                used@,
                liveness,
                pp,
            ),
            drops_in_reach(start, k, index as int, used@, liveness, pp) == drops_in_reach(
                start,
                0,
                0,
                used@,
                liveness,
                pp,
            ),
            forall|v: Value|
                seen@.contains(v) <==> exists|j: int|
                    0 <= j < k && #[trigger] start[j].operand == Operand::Value(v),
            all_applicable(buffered(ops), start),
            apply_all(buffered(ops), start) == stack@,
            block@ == old(block)@,
            entered_with@ == start,
        decreases stack@.len() - index,
    {
        let entry = stack.get(index);
        let ghost before = stack@;
        let ghost seen_before = seen@;
        proof {
            lemma_skip_step(before, index as int, start, k);
        }
        let keep = match entry.operand {
            Operand::Value(v) => {
                let wanted = contains_value(used, v) || liveness.is_live_at(v, pp);
                let fresh = id_set_insert(&mut seen, v);
                assert(fresh <==> forall|j: int| 0 <= j < k ==> start[j].operand != Operand::Value(v));
                wanted && fresh
            },
            Operand::Const(_) => false,
        };
        assert(keep == retained(start, k, used@, liveness, pp));
        assert forall|v: Value|
            seen@.contains(v) <==> exists|j: int|
                0 <= j < k + 1 && #[trigger] start[j].operand == Operand::Value(v) by {
            if seen@.contains(v) {
                if seen_before.contains(v) {
                    let j = choose|j: int| 0 <= j < k && #[trigger] start[j].operand == Operand::Value(v);
                    assert(0 <= j < k + 1 && start[j].operand == Operand::Value(v));
                } else {
                    assert(start[k].operand == Operand::Value(v));
                }
            }
            if exists|j: int| 0 <= j < k + 1 && #[trigger] start[j].operand == Operand::Value(v) {
                let j = choose|j: int| 0 <= j < k + 1 && #[trigger] start[j].operand == Operand::Value(v);
                if j < k {
                    assert(seen_before.contains(v));
                }
            }
        }
        if keep {
            proof {
                assert(stack@.take(index + 1) =~= stack@.take(index as int) + seq![start[k]]);
                assert(stack@.skip(index + 1) =~= start.skip(k + 1));
                assert(stack@.take(index + 1) + retain_from(start, k + 1, used@, liveness, pp)
                    =~= stack@.take(index as int) + retain_from(start, k, used@, liveness, pp));
            }
            index = index + 1;
        } else {
            if index > MAX_OPERAND_INDEX {
                assert(!drops_in_reach(start, k, index as int, used@, liveness, pp));
                proof {
                    lemma_grows_same(old(block)@);
                }
                *stack = entered_with;
                return Err(StackifyError::LimitExceeded);
            }
            let ghost held = buffered(ops);
            if index == 0 {
                stack.pop();
                op_buffer_push(&mut ops, Op::Drop);
                proof {
                    assert(buffered(ops) =~= held + drop_ops(0));
                    assert(before.skip(1) =~= before.remove(0));
                }
            } else if index == 1 {
                stack.swap(1);
                stack.pop();
                op_buffer_push(&mut ops, Op::Swap(1));
                op_buffer_push(&mut ops, Op::Drop);
                proof {
                    assert(buffered(ops) =~= held + drop_ops(1));
                    assert(swap_at(before, 1).skip(1) =~= before.remove(1));
                }
            } else {
                stack.movup(index);
                stack.pop();
                op_buffer_push(&mut ops, Op::Movup(index as u8));
                op_buffer_push(&mut ops, Op::Drop);
                proof {
                    assert(buffered(ops) =~= held + drop_ops(index as int));
                    assert(movup_at(before, index as int).skip(1) =~= before.remove(index as int));
                }
            }
            proof {
                lemma_drop_ops(index as int, before);
                lemma_apply_all_concat(held, drop_ops(index as int), start);
                assert(stack@ == before.remove(index as int));
                assert(stack@.skip(index as int) =~= before.skip(index + 1));
                assert(stack@.take(index as int) =~= before.take(index as int));
                assert((held + drop_ops(index as int)) + drop_plan(
                    start,
                    k + 1,
                    index as int,
                    used@,
                    liveness,
                    pp,
                ) =~= held + drop_plan(start, k, index as int, used@, liveness, pp));
            }
        }
        proof {
            k = k + 1;
        }
    }
    proof {
        assert(stack@.take(index as int) =~= stack@);
        assert(retain_from(start, k, used@, liveness, pp) =~= Seq::<Entry>::empty());
        assert(stack@ + Seq::<Entry>::empty() =~= stack@);
        assert(drop_plan(start, k, index as int, used@, liveness, pp) =~= Seq::<Op>::empty());
        assert(buffered(ops) + Seq::<Op>::empty() =~= buffered(ops));
        assert(Seq::new(0, |i: int| Op::Drop) + buffered(ops) =~= buffered(ops));
        lemma_fuse_drops(buffered(ops), 0, start);
        lemma_wrote_manipulations(old(block)@, fuse_drops(buffered(ops), 0), start);
    }
    emit_fused(&ops, block);
    Ok(())
}

/// Two sequences that agree from some position on agree there, and from
/// the next position on.
pub proof fn lemma_skip_step<T>(a: Seq<T>, i: int, b: Seq<T>, k: int)
    requires
        0 <= i < a.len(),
        0 <= k < b.len(),
        a.skip(i) == b.skip(k),
    ensures
        a[i] == b[k],
        a.skip(i + 1) == b.skip(k + 1),
{
    let p = a.skip(i);
    let q = b.skip(k);
    assert(p.len() == a.len() - i);
    assert(q.len() == b.len() - k);
    assert(p[0] == a[i]);
    assert(q[0] == b[k]);
    let x = a.skip(i + 1);
    let y = b.skip(k + 1);
    assert(x.len() == y.len());
    assert forall|j: int| 0 <= j < x.len() implies #[trigger] x[j] == y[j] by {
        assert(p[j + 1] == a[i + j + 1]);
        assert(q[j + 1] == b[k + j + 1]);
    }
    assert(a.skip(i + 1) =~= b.skip(k + 1));
}

/// What discarding the operand at position `n` makes of a stack.
pub proof fn lemma_drop_ops(n: int, stack: Seq<Entry>)
    requires
        0 <= n < stack.len(),
        n <= MAX_OPERAND_INDEX,
    ensures
        all_applicable(drop_ops(n), stack),
        apply_all(drop_ops(n), stack) == stack.remove(n),
{
    if n == 0 {
        lemma_apply_one(Op::Drop, stack);
        assert(stack.skip(1) =~= stack.remove(0));
    } else if n == 1 {
        lemma_apply_two(Op::Swap(1), Op::Drop, stack);
        assert(swap_at(stack, 1).skip(1) =~= stack.remove(1));
    } else {
        lemma_apply_two(Op::Movup(n as u8), Op::Drop, stack);
        assert(movup_at(stack, n).skip(1) =~= stack.remove(n));
    }
}

} // verus!
